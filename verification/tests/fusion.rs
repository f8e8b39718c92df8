use koharu::blocks::{TextDirection, layout_candidates, text_block, text_blocks};
use koharu::fusion::{
    Candidate, Class, Detector, Fusion, FusedRegion, FusionConfig, MaskFill, Role, UniformCoverage,
    fuse, overlaps,
};
use koharu::geometry::{BBox, ioa_at_least, iou_at_least};
use koharu::mask::TextMask;
use koharu::yolo26s::{DEFAULT_CONFIDENCE_THRESHOLD, Yolo26sClass, Yolo26sRegion};

fn px(x1: i32, y1: i32, x2: i32, y2: i32) -> BBox {
    BBox::from_pixels(x1, y1, x2, y2)
}

fn candidate(bbox: BBox, detector: Detector, class: Class, score: u32) -> Candidate {
    Candidate { bbox, detector, class, score, has_mask: false, mask_fill: None }
}

fn no_mask() -> UniformCoverage {
    UniformCoverage::none()
}

#[test]
fn nested_boxes_match_by_ioa_not_iou() {
    let config = FusionConfig::default();
    let outer = px(0, 0, 100, 100);
    let inner = px(10, 10, 40, 40);
    // 900 / 10000 area ratio: far below the IoU gate.
    assert!(!iou_at_least(outer, inner, config.match_iou));
    assert!(ioa_at_least(inner, outer, config.match_ioa));
    assert!(overlaps(outer, inner, &config));
}

#[test]
fn two_detectors_accept_a_bubble_one_does_not() {
    let config = FusionConfig::default();
    let agreed = fuse(
        &[
            candidate(px(0, 0, 100, 100), Detector::Layout, Class::Bubble, 900_000),
            candidate(px(4, 4, 104, 104), Detector::RtDetr, Class::Bubble, 700_000),
        ],
        &config,
        &no_mask(),
    );
    assert_eq!(agreed.bubbles.len(), 1, "same balloon, one cluster");
    assert_eq!(agreed.bubbles[0].detectors.len(), 2);
    assert!(agreed.bubbles[0].accepted);
    // Geometry comes from the higher-scoring box, not a union.
    assert_eq!(agreed.bubbles[0].bbox, px(0, 0, 100, 100));

    let singleton = fuse(
        &[candidate(px(0, 0, 100, 100), Detector::RtDetr, Class::Bubble, 900_000)],
        &config,
        &no_mask(),
    );
    assert!(!singleton.bubbles[0].accepted, "one vote is review-only");
}

#[test]
fn strong_layout_mask_accepts_a_bubble_alone() {
    let mut only = candidate(px(0, 0, 100, 100), Detector::Layout, Class::Bubble, 800_000);
    only.has_mask = true;
    let fusion = fuse(&[only], &FusionConfig::default(), &no_mask());
    assert!(fusion.bubbles[0].accepted);

    only.score = 300_000; // below strong_mask_score
    let weak = fuse(&[only], &FusionConfig::default(), &no_mask());
    assert!(!weak.bubbles[0].accepted);
}

#[test]
fn text_in_an_accepted_bubble_is_dialogue() {
    let fusion = fuse(
        &[
            candidate(px(0, 0, 100, 100), Detector::Layout, Class::Bubble, 900_000),
            candidate(px(0, 0, 100, 100), Detector::RtDetr, Class::Bubble, 800_000),
            candidate(px(20, 20, 60, 60), Detector::AnimeText, Class::Text, 500_000),
        ],
        &FusionConfig::default(),
        &no_mask(),
    );
    let region = &fusion.regions[0];
    assert_eq!(region.role, Role::Dialogue);
    assert_eq!(region.bubble, Some(0));
    // One text detector, but the accepted balloon carries the evidence.
    assert!(region.accepted);
}

#[test]
fn text_in_an_unconfirmed_bubble_stays_for_review() {
    let fusion = fuse(
        &[
            candidate(px(0, 0, 100, 100), Detector::RtDetr, Class::Bubble, 900_000),
            candidate(px(20, 20, 60, 60), Detector::AnimeText, Class::Text, 500_000),
        ],
        &FusionConfig::default(),
        &no_mask(),
    );
    assert_eq!(fusion.regions[0].role, Role::Dialogue);
    assert!(!fusion.regions[0].accepted);
}

#[test]
fn outside_text_needs_two_votes_or_pixels() {
    let config = FusionConfig::default();
    let lone = px(500, 500, 600, 540);

    let review = fuse(&[candidate(lone, Detector::AnimeText, Class::Text, 500_000)], &config, &no_mask());
    assert_eq!(review.regions[0].role, Role::Outside);
    assert!(!review.regions[0].accepted);

    let by_pixels = fuse(
        &[candidate(lone, Detector::AnimeText, Class::Text, 500_000)],
        &config,
        &UniformCoverage::new(4, 10),
    );
    assert!(by_pixels.regions[0].accepted);

    let by_votes = fuse(
        &[
            candidate(lone, Detector::AnimeText, Class::Text, 500_000),
            candidate(lone, Detector::ComicTextDetector, Class::Text, 400_000),
        ],
        &config,
        &no_mask(),
    );
    assert_eq!(by_votes.regions.len(), 1);
    assert!(by_votes.regions[0].accepted);
}

fn sfx_region(fusion: Fusion) -> FusedRegion {
    fusion.regions.into_iter().find(|r| r.role == Role::Sfx).expect("SFX region")
}

#[test]
fn sfx_needs_a_mask_and_glyph_confirmation() {
    let config = FusionConfig::default();
    let sfx = px(300, 300, 460, 380);
    let masked = || {
        let mut c = candidate(sfx, Detector::Layout, Class::Sfx, 450_000);
        c.has_mask = true;
        c
    };

    let bare = fuse(&[candidate(sfx, Detector::Layout, Class::Sfx, 450_000)], &config, &no_mask());
    assert_eq!(bare.regions[0].role, Role::Sfx);
    assert!(!bare.regions[0].accepted, "raw SFX rectangles are proposals");

    // An instance mask with nothing to corroborate it is still one opinion.
    assert!(!sfx_region(fuse(&[masked()], &config, &no_mask())).accepted);
    // Glyph evidence over a rectangle nobody segmented, likewise.
    assert!(
        !sfx_region(fuse(
            &[candidate(sfx, Detector::Layout, Class::Sfx, 450_000)],
            &config,
            &UniformCoverage::new(3, 10)
        ))
        .accepted
    );

    // Mask plus the pixel text mask.
    assert!(sfx_region(fuse(&[masked()], &config, &UniformCoverage::new(3, 10))).accepted);

    // Mask plus another detector's text box over the same rectangle.
    for detector in [Detector::AnimeText, Detector::ComicTextDetector] {
        let confirmed = sfx_region(fuse(
            &[masked(), candidate(px(310, 310, 450, 370), detector, Class::Text, 500_000)],
            &config,
            &no_mask(),
        ));
        assert!(confirmed.accepted, "{detector:?} should confirm");
    }

    // ...but the layout model cannot confirm its own SFX box by also calling
    // it text.
    let self_confirmed = sfx_region(fuse(
        &[masked(), candidate(px(310, 310, 450, 370), Detector::Layout, Class::Text, 500_000)],
        &config,
        &no_mask(),
    ));
    assert!(!self_confirmed.accepted);
}

fn region(class: Yolo26sClass, bbox: BBox, score: u32) -> Yolo26sRegion {
    Yolo26sRegion { class, score, bbox, mask: None }
}

#[test]
fn layout_classes_map_onto_fusion_classes() {
    let candidates = layout_candidates(&[
        region(Yolo26sClass::Frame, px(0, 0, 400, 600), 950_000),
        region(Yolo26sClass::Balloon, px(10, 10, 90, 120), 900_000),
        region(Yolo26sClass::DialogueText, px(20, 20, 60, 110), 800_000),
        region(Yolo26sClass::OnomatopoeiaText, px(200, 40, 320, 90), 600_000),
        region(Yolo26sClass::DialogueText, px(0, 0, 10, 10), DEFAULT_CONFIDENCE_THRESHOLD - 10_000),
    ]);

    let classes: Vec<Class> = candidates.iter().map(|c| c.class).collect();
    assert_eq!(classes, vec![Class::Bubble, Class::Text, Class::Sfx]);
    assert!(candidates.iter().all(|c| c.has_mask));
    // Undecoded masks leave no fill to measure, which is what keeps the SFX
    // rule from resting on a value nobody computed.
    assert!(candidates.iter().all(|c| c.mask_fill.is_none()));
}

/// A page-sized mask lighting the rows `[0, lit_rows)`.
fn lit_rows_mask(width: u32, height: u32, lit_rows: u32) -> TextMask {
    let mut pixels = vec![0u8; (width * height) as usize];
    for y in 0..lit_rows {
        for x in 0..width {
            pixels[(y * width + x) as usize] = 255;
        }
    }
    TextMask::from_raw(width, height, pixels).expect("mask dimensions")
}

#[test]
fn sfx_mask_fill_measures_the_decoded_mask_not_its_existence() {
    // Two SFX boxes the model scored identically: one whose mask traced a
    // fifth of the box, one whose mask lit nothing.
    let bbox = px(0, 0, 100, 100);
    let traced = Yolo26sRegion {
        mask: Some(lit_rows_mask(100, 100, 20)),
        ..region(Yolo26sClass::OnomatopoeiaText, bbox, 600_000)
    };
    let empty = Yolo26sRegion {
        mask: Some(lit_rows_mask(100, 100, 0)),
        ..region(Yolo26sClass::OnomatopoeiaText, bbox, 600_000)
    };

    let candidates = layout_candidates(&[traced, empty]);
    assert_eq!(candidates[0].mask_fill, Some(MaskFill { lit: 2_000, area: 10_000 }));
    assert_eq!(candidates[1].mask_fill, Some(MaskFill { lit: 0, area: 10_000 }));
    assert!(candidates.iter().all(|c| c.has_mask), "same on both");

    // Same glyph evidence, opposite outcomes.
    let config = FusionConfig::default();
    let full = UniformCoverage::new(1, 1);
    let accepted =
        |candidate: &Candidate| fuse(std::slice::from_ref(candidate), &config, &full).regions[0].accepted;
    assert!(accepted(&candidates[0]));
    assert!(!accepted(&candidates[1]));
}

fn lit_mask(width: u32, height: u32, lit_columns: u32) -> TextMask {
    let mut pixels = vec![0u8; (width * height) as usize];
    for y in 0..height {
        for x in 0..lit_columns {
            pixels[(y * width + x) as usize] = 255;
        }
    }
    TextMask::from_raw(width, height, pixels).expect("mask dimensions")
}

#[test]
fn coverage_counts_only_lit_pixels_inside_the_box() {
    let mask = lit_mask(10, 10, 5);

    let half = mask.mask_coverage(px(0, 0, 10, 10));
    assert_eq!(half.num * 2, half.den);
    let full = mask.mask_coverage(px(0, 0, 5, 10));
    assert_eq!(full.num, full.den);
    let none = mask.mask_coverage(px(5, 0, 10, 10));
    assert_eq!(none.num, 0);
}

#[test]
fn coverage_clamps_boxes_that_run_off_the_page() {
    let mask = lit_mask(10, 10, 10);

    let clamped = mask.mask_coverage(px(-50, -50, 50, 50));
    assert_eq!(clamped.num, clamped.den);
    let off_page = mask.mask_coverage(px(20, 20, 30, 30));
    assert_eq!(off_page.num, 0);
}

#[test]
fn text_block_records_every_voter() {
    let (bbox, text) = text_block(&FusedRegion {
        bbox: px(10, 10, 40, 90),
        role: Role::Outside,
        score: 700_000,
        detectors: vec![Detector::Layout, Detector::ComicTextDetector],
        accepted: true,
        bubble: None,
        mask_fill: None,
    });

    assert_eq!(bbox, px(10, 10, 40, 90));
    assert_eq!(text.detector.as_deref(), Some("koharu-fusion(layout+ctd)"));
    assert_eq!(text.source_direction, Some(TextDirection::Vertical));
}

#[test]
fn keeps_glyph_classes_and_drops_structure() {
    let blocks = text_blocks(&[
        region(Yolo26sClass::Frame, px(0, 0, 400, 600), 950_000),
        region(Yolo26sClass::Balloon, px(10, 10, 90, 120), 900_000),
        region(Yolo26sClass::DialogueText, px(20, 20, 60, 110), 800_000),
        region(Yolo26sClass::OnomatopoeiaText, px(200, 40, 320, 90), 600_000),
    ]);
    assert_eq!(blocks.len(), 2);
    assert_eq!(blocks[0].1.source_direction, Some(TextDirection::Vertical));
    assert_eq!(blocks[1].1.source_direction, Some(TextDirection::Horizontal));
}

#[test]
fn drops_regions_below_the_threshold() {
    let blocks = text_blocks(&[region(
        Yolo26sClass::DialogueText,
        px(0, 0, 10, 10),
        DEFAULT_CONFIDENCE_THRESHOLD - 10_000,
    )]);
    assert!(blocks.is_empty());
}
