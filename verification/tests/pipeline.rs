use koharu::annotate::glyph_for_char;
use koharu::anime_text::AnimeTextRegion;
use koharu::blocks::TextRegion;
use koharu::comic_bubble::{
    ComicTextBubbleRegion, box_area, clamp_box, color_for_label as bubble_color,
    detections_to_text_blocks, filter_and_fix_regions,
};
use koharu::config::{ProviderConfig, upsert_provider_secret};
use koharu::engine::{accepted_text_blocks, fusion_candidates};
use koharu::fusion::{Class, Detector, FusionConfig, UniformCoverage, fuse};
use koharu::geometry::{BBox, SUBPIXELS};
use koharu::layout::color_for_label as layout_color;
use koharu::rtdetr::{
    ImageSlicer, default_num_labels, default_processor_size, finish_page, shift_detections,
};
use koharu::yolo26s::{Instance, Yolo26sClass, Yolo26sRegion, color_for, needs_prototypes, wants_mask};

fn px(x1: i32, y1: i32, x2: i32, y2: i32) -> BBox {
    BBox::from_pixels(x1, y1, x2, y2)
}

#[test]
fn every_model_contributes_its_proposals_in_order() {
    let layout = [
        Yolo26sRegion { class: Yolo26sClass::Balloon, score: 900_000, bbox: px(0, 0, 100, 100), mask: None },
        Yolo26sRegion { class: Yolo26sClass::Frame, score: 900_000, bbox: px(0, 0, 400, 600), mask: None },
    ];
    let rtdetr = [
        ComicTextBubbleRegion { label_id: 0, label: "bubble".to_string(), score: 800_000, bbox: px(2, 2, 98, 98) },
        ComicTextBubbleRegion { label_id: 2, label: "text_free".to_string(), score: 700_000, bbox: px(200, 200, 260, 240) },
    ];
    let ctd = [TextRegion {
        x: 20 * SUBPIXELS,
        y: 20 * SUBPIXELS,
        width: 40 * SUBPIXELS as i64,
        height: 60 * SUBPIXELS as i64,
        confidence: 600_000,
        detector: None,
    }];
    let anime = [AnimeTextRegion { label_id: 0, label: "text_block".to_string(), score: 500_000, bbox: px(21, 21, 59, 79) }];

    let with_anime = fusion_candidates(&layout, &rtdetr, &ctd, Some(&anime));
    let summary: Vec<(Detector, Class)> = with_anime.iter().map(|c| (c.detector, c.class)).collect();
    assert_eq!(
        summary,
        vec![
            (Detector::Layout, Class::Bubble),
            (Detector::RtDetr, Class::Bubble),
            (Detector::RtDetr, Class::Text),
            (Detector::ComicTextDetector, Class::Text),
            (Detector::AnimeText, Class::Text),
        ]
    );
    assert_eq!(with_anime[3].bbox, px(20, 20, 60, 80));
    assert_eq!(fusion_candidates(&layout, &rtdetr, &ctd, None).len(), 4);
}

#[test]
fn only_accepted_regions_become_text_blocks() {
    let candidates = fusion_candidates(
        &[],
        &[],
        &[],
        Some(&[
            AnimeTextRegion { label_id: 0, label: "text_block".to_string(), score: 500_000, bbox: px(500, 500, 600, 540) },
        ]),
    );
    let review = fuse(&candidates, &FusionConfig::default(), &UniformCoverage::none());
    assert_eq!(review.regions.len(), 1);
    assert!(accepted_text_blocks(&review).is_empty());

    let confirmed = fuse(&candidates, &FusionConfig::default(), &UniformCoverage::new(1, 2));
    let blocks = accepted_text_blocks(&confirmed);
    assert_eq!(blocks.len(), 1);
    assert_eq!(blocks[0].0, px(500, 500, 600, 540));
    assert_eq!(blocks[0].1.detector.as_deref(), Some("koharu-fusion(animetext)"));
}

#[test]
fn strip_detections_move_onto_the_page() {
    let mut detections = vec![ComicTextBubbleRegion { label_id: 1, label: "text_bubble".to_string(), score: 1, bbox: px(10, 5, 20, 15) }];
    shift_detections(&mut detections, 240);
    assert_eq!(detections[0].bbox, px(10, 245, 20, 255));
    assert_eq!(detections[0].label, "text_bubble");
}

#[test]
fn strips_cover_every_row_of_a_tall_page() {
    let slicer = ImageSlicer::new();
    for (width, height) in [(100u32, 1000u32), (37, 5000), (1, 4), (640, 9999)] {
        let plan = slicer.slice_plan(width, height).expect("tall page");
        assert_eq!(plan[0].0, 0);
        for y in 0..height {
            assert!(plan.iter().any(|&(top, crop)| top <= y && y < top + crop), "row {y} of {width}x{height}");
        }
    }
}

#[test]
fn glyph_rows_fit_five_columns() {
    for code in 0u8..128 {
        for row in glyph_for_char(code as char) {
            assert!(row < 32);
        }
    }
}

#[test]
fn setting_a_secret_twice_changes_nothing() {
    let mut once = vec![ProviderConfig { id: "a".to_string(), base_url: Some("u".to_string()), api_key: None }];
    upsert_provider_secret(&mut once, "b", Some("k"));
    let mut twice = once.clone();
    upsert_provider_secret(&mut twice, "b", Some("k"));
    assert_eq!(twice.len(), once.len());
    assert_eq!(twice[1].api_key, once[1].api_key);
    assert_eq!(twice[0].base_url.as_deref(), Some("u"));
}

#[test]
fn masks_are_decoded_only_for_requested_classes() {
    let sfx = Instance { class: Yolo26sClass::OnomatopoeiaText, score: 1, bbox: px(0, 0, 1, 1), row: 0 };
    let balloon = Instance { class: Yolo26sClass::Balloon, score: 1, bbox: px(0, 0, 1, 1), row: 1 };
    assert!(wants_mask(&[Yolo26sClass::OnomatopoeiaText], Yolo26sClass::OnomatopoeiaText));
    assert!(!wants_mask(&[], Yolo26sClass::Balloon));
    assert!(needs_prototypes(&[balloon, sfx], &[Yolo26sClass::OnomatopoeiaText]));
    assert!(!needs_prototypes(&[balloon], &[Yolo26sClass::OnomatopoeiaText]));
    assert!(!needs_prototypes(&[sfx], &[]));
}

#[test]
fn overlay_palettes() {
    assert_eq!(bubble_color(0), [0, 255, 0, 255]);
    assert_eq!(bubble_color(7), [255, 255, 255, 255]);
    assert_eq!(layout_color(1), [255, 64, 200, 255]);
    assert_eq!(layout_color(3), [255, 176, 0, 255]);
    assert_eq!(color_for(Yolo26sClass::DialogueText), [0, 160, 255, 255]);
}

#[test]
fn comic_regions_are_clamped_and_thin_ones_dropped() {
    let region = |label_id: usize, bbox: BBox| ComicTextBubbleRegion { label_id, label: "x".to_string(), score: 900_000, bbox };
    assert!(region(0, px(0, 0, 1, 1)).is_bubble());
    assert!(region(2, px(0, 0, 1, 1)).is_text());
    assert!(!region(0, px(0, 0, 1, 1)).is_text());
    assert_eq!(box_area(px(0, 0, 10, 20)), (10 * 20 * SUBPIXELS * SUBPIXELS) as u128);
    assert_eq!(box_area(px(10, 0, 0, 20)), 0);
    assert_eq!(clamp_box(px(-5, -5, 150, 60), 100, 50), px(0, 0, 100, 50));

    let kept = filter_and_fix_regions(
        vec![region(0, px(-10, -10, 50, 50)), region(1, px(90, 10, 140, 40)), region(2, px(10, 10, 13, 40))],
        100,
        100,
    );
    assert_eq!(kept.len(), 2);
    assert_eq!(kept[0].bbox, px(0, 0, 50, 50));
    assert_eq!(kept[1].bbox, px(90, 10, 100, 40));

    let blocks = detections_to_text_blocks(
        100,
        100,
        &[region(0, px(0, 0, 50, 50)), region(1, px(10, 10, 40, 40)), region(2, px(60, 60, 63, 90))],
    );
    assert_eq!(blocks.len(), 1);
    assert_eq!(blocks[0].x, 10 * SUBPIXELS);
    assert_eq!(blocks[0].width, 30 * SUBPIXELS as i64);
    assert_eq!(blocks[0].detector.as_deref(), Some("comic-text-bubble-detector"));
}

#[test]
fn processor_defaults() {
    assert_eq!(default_num_labels(), 3);
    let size = default_processor_size();
    assert_eq!((size.width, size.height), (640, 640));
}

#[test]
fn finished_pages_fold_strip_duplicates_and_list_text() {
    let region = |label_id: usize, score: u32, bbox: BBox| ComicTextBubbleRegion { label_id, label: "x".to_string(), score, bbox };
    let (regions, blocks) = finish_page(
        vec![
            region(0, 800_000, px(10, 10, 50, 50)),
            region(0, 700_000, px(12, 12, 48, 48)),
            region(2, 900_000, px(100, 100, 140, 140)),
            region(1, 600_000, px(0, 0, 3, 3)),
        ],
        500,
        500,
    );
    assert_eq!(regions.len(), 2);
    assert_eq!(blocks.len(), 1);
    assert_eq!(blocks[0].x, 100 * SUBPIXELS);
}

#[test]
fn anime_regions_sort_by_descending_score_keeping_ties_in_order() {
    let region = |score: u32, x: i32| AnimeTextRegion { label_id: 0, label: "text_block".to_string(), score, bbox: px(x, 0, x + 10, 10) };
    let sorted = koharu::anime_text::sort_regions_by_score(vec![region(1, 0), region(5, 10), region(5, 20), region(3, 30)]);
    let xs: Vec<i32> = sorted.iter().map(|r| r.bbox.x1 / SUBPIXELS).collect();
    assert_eq!(xs, vec![10, 20, 30, 0]);
}

#[test]
fn font_characters_draw_distinct_glyphs() {
    let font: Vec<char> = ('A'..='Z').chain('0'..='9').chain([' ', '-']).collect();
    let fallback = glyph_for_char('?');
    for (i, a) in font.iter().enumerate() {
        assert_ne!(glyph_for_char(*a), fallback, "{a:?} draws the fallback");
        for b in &font[i + 1..] {
            assert_ne!(glyph_for_char(*a), glyph_for_char(*b), "{a:?} and {b:?} look alike");
        }
    }
    assert_eq!(glyph_for_char('q'), glyph_for_char('Q'));
    assert_eq!(glyph_for_char('~'), fallback);
}
