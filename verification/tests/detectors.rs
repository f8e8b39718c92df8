use koharu::anime_text::{
    accepted_threshold,
    AnimeTextDetector, AnimeTextRegion, AnimeTextYoloVariant, Prediction, decode_predictions,
    letterbox as anime_letterbox, map_bbox_to_original, regions_to_text_blocks, variant_directory,
};
use koharu::comic_bubble::{ComicTextBubbleRegion, merge_slice_regions};
use koharu::ctd::{ComicTextDetector, CtdPrediction, bboxes_to_text_blocks, decode_prediction};
use koharu::font::OUTPUT_WIDTH;
use koharu::geometry::{BBox, SUBPIXELS};
use koharu::detections::{LayoutDetectionError, layout_detection, yolo26s_detection};
use koharu::layout::{LayoutInputConfig, LayoutOnnxConfig, decode_layout, scale_box};
use koharu::mask_decode::MaskShapeError;
use koharu::rtdetr::{DecodeError, ImageSlicer, RTDetrV2Config, decode_detections};
use koharu::yolo26s::{
    INPUT_SIZE, Instance, Letterbox, OutputRow, ReadError, STRIDE, Yolo26sClass, dedup,
    letterbox_geometry, map_box, read_instances,
};

fn px(x1: i32, y1: i32, x2: i32, y2: i32) -> BBox {
    BBox::from_pixels(x1, y1, x2, y2)
}

#[test]
fn letterbox_pads_the_short_edge_to_a_stride_multiple() {
    let letterbox = letterbox_geometry(850, 1200);

    assert_eq!(letterbox.resized_height, INPUT_SIZE, "long edge hits imgsz");
    assert_eq!(letterbox.input_height, INPUT_SIZE);
    assert_eq!(letterbox.resized_width, 907);
    // 907 rounds up to 928, split evenly either side.
    assert_eq!(letterbox.input_width, 928);
    assert_eq!(letterbox.pad_x, 10);
    assert_eq!(letterbox.pad_y, 0);
    assert_eq!(letterbox.input_width % STRIDE, 0);
    assert_eq!(letterbox.input_height % STRIDE, 0);
}

#[test]
fn map_box_undoes_the_letterbox() {
    let letterbox = letterbox_geometry(850, 1200);
    // The padded input's own corners map to the page's corners, clamped.
    let full = map_box(
        px(
            letterbox.pad_x as i32,
            letterbox.pad_y as i32,
            (letterbox.pad_x + letterbox.resized_width) as i32,
            (letterbox.pad_y + letterbox.resized_height) as i32,
        ),
        &letterbox,
    );
    assert!(full.x1.abs() < SUBPIXELS && full.y1.abs() < SUBPIXELS);
    assert!((full.x2 - 850 * SUBPIXELS).abs() < SUBPIXELS);
    assert!((full.y2 - 1200 * SUBPIXELS).abs() < SUBPIXELS);
}

fn instance(class: Yolo26sClass, score: u32, bbox: BBox, row: usize) -> Instance {
    Instance { class, score, bbox, row }
}

#[test]
fn dedup_drops_the_weaker_twin_and_keeps_nested_classes() {
    let balloon = px(100, 100, 300, 260);
    let kept = dedup(vec![
        instance(Yolo26sClass::Balloon, 910_000, balloon, 0),
        // Same balloon again, 0.88 IoU: the head's duplicate.
        instance(Yolo26sClass::Balloon, 620_000, px(104, 104, 296, 256), 1),
        // The text inside it: heavy overlap, different class, real object.
        instance(Yolo26sClass::DialogueText, 800_000, px(110, 110, 290, 250), 2),
    ]);

    assert_eq!(kept.len(), 2);
    assert_eq!(kept[0].class, Yolo26sClass::Balloon);
    assert_eq!(kept[0].bbox, balloon, "the stronger twin survives");
    assert_eq!(kept[1].class, Yolo26sClass::DialogueText);
}

#[test]
fn class_ids_match_the_export() {
    for (id, expected) in [
        (0, Yolo26sClass::Frame),
        (1, Yolo26sClass::DialogueText),
        (2, Yolo26sClass::Balloon),
        (3, Yolo26sClass::OnomatopoeiaText),
    ] {
        assert_eq!(Yolo26sClass::from_id(id), Some(expected));
        assert_eq!(expected.id(), id);
    }
    assert_eq!(Yolo26sClass::from_id(4), None);
    assert_eq!(Yolo26sClass::OnomatopoeiaText.as_str(), "onomatopoeia_text");
}

fn identity_letterbox(side: u32) -> Letterbox {
    Letterbox {
        original_width: side,
        original_height: side,
        resized_width: side,
        resized_height: side,
        input_width: side,
        input_height: side,
        pad_x: 0,
        pad_y: 0,
        scale_num: 1,
        scale_den: 1,
    }
}

#[test]
fn read_instances_thresholds_sorts_and_refuses_unknown_classes() {
    let letterbox = identity_letterbox(100);
    let row = |x1: i32, score: u32, class_id: usize| OutputRow {
        x1: x1 * SUBPIXELS,
        y1: 0,
        x2: (x1 + 10) * SUBPIXELS,
        y2: 10 * SUBPIXELS,
        score,
        class_id,
    };
    let found = read_instances(
        &[row(0, 300_000, 1), row(20, 100_000, 2), row(40, 900_000, 2), row(60, 600_000, 0)],
        &letterbox,
        250_000,
    )
    .unwrap();
    let rows: Vec<usize> = found.iter().map(|i| i.row).collect();
    assert_eq!(rows, vec![2, 3, 0]);
    assert_eq!(found[0].class, Yolo26sClass::Balloon);

    let refused = read_instances(&[row(0, 300_000, 7)], &letterbox, 250_000);
    assert_eq!(refused.unwrap_err(), ReadError::UnknownClass(7));
    // A row below the threshold is never looked up.
    assert!(read_instances(&[row(0, 100_000, 7)], &letterbox, 250_000).unwrap().is_empty());
}

#[test]
fn variant_directory_matches_the_repo_layout() {
    assert_eq!(variant_directory(AnimeTextYoloVariant::X), "yolo12x_animetext");
    assert_eq!(variant_directory(AnimeTextYoloVariant::N), "yolo12n_animetext");
}

#[test]
fn map_bbox_to_original_removes_letterbox_padding() {
    let letterbox = Letterbox {
        original_width: 1000,
        original_height: 500,
        resized_width: 640,
        resized_height: 320,
        input_width: 640,
        input_height: 640,
        pad_x: 0,
        pad_y: 160,
        scale_num: 64,
        scale_den: 100,
    };

    let bbox = map_bbox_to_original(px(100, 200, 540, 440), &letterbox);
    let pixels = |v: i32| v as f64 / SUBPIXELS as f64;
    assert!((pixels(bbox.x1) - 156.25).abs() < 1e-3);
    assert!((pixels(bbox.y1) - 62.5).abs() < 1e-3);
    assert!((pixels(bbox.x2) - 843.75).abs() < 1e-3);
    assert!((pixels(bbox.y2) - 437.5).abs() < 1e-3);
}

#[test]
fn anime_letterbox_centres_the_page_on_the_square_input() {
    let l = anime_letterbox(1000, 500);
    assert_eq!((l.resized_width, l.resized_height), (640, 320));
    assert_eq!((l.pad_x, l.pad_y), (0, 160));
    assert_eq!((l.input_width, l.input_height), (640, 640));
    let empty = anime_letterbox(0, 0);
    assert_eq!((empty.resized_width, empty.resized_height), (1, 1));
}

#[test]
fn recommended_threshold_is_kept_only_inside_the_unit_interval() {
    let pinned = AnimeTextDetector::new(AnimeTextYoloVariant::X, Some(425_000));
    assert_eq!(pinned.variant(), AnimeTextYoloVariant::X);
    assert_eq!(pinned.recommended_confidence(), Some(425_000));
    assert_eq!(pinned.confidence_threshold(), 425_000);

    let out_of_range = AnimeTextDetector::new(AnimeTextYoloVariant::N, Some(1_000_000));
    assert_eq!(out_of_range.recommended_confidence(), None);
    assert_eq!(out_of_range.confidence_threshold(), 250_000);
    let negative = AnimeTextDetector::new(AnimeTextYoloVariant::N, Some(-1));
    assert_eq!(negative.recommended_confidence(), None);
    assert_eq!(AnimeTextYoloVariant::M.as_str(), "m");
}

#[test]
fn anime_decode_keeps_confident_nonempty_boxes() {
    let letterbox = anime_letterbox(640, 640);
    let p = |cx: i32, w: i32, score: u32| Prediction {
        cx: cx * SUBPIXELS,
        cy: 100 * SUBPIXELS,
        w: w * SUBPIXELS,
        h: 20 * SUBPIXELS,
        score,
    };
    let regions = decode_predictions(&[p(100, 40, 900_000), p(200, 40, 100_000), p(300, 0, 900_000)], &letterbox, 250_000);
    assert_eq!(regions.len(), 1);
    assert_eq!(regions[0].label, "text_block");
    assert_eq!(regions[0].bbox, px(80, 90, 120, 110));
}

#[test]
fn anime_text_blocks_drop_slivers() {
    let region = |bbox: BBox| AnimeTextRegion { label_id: 0, label: "text_block".to_string(), score: 500_000, bbox };
    let blocks = regions_to_text_blocks(&[region(px(0, 0, 1, 50)), region(px(10, 10, 40, 30))]);
    assert_eq!(blocks.len(), 1);
    assert_eq!(blocks[0].width, 30 * SUBPIXELS as i64);
    assert_eq!(blocks[0].height, 20 * SUBPIXELS as i64);
    assert_eq!(blocks[0].detector.as_deref(), Some("anime-text-yolo"));
}

fn bubble_region(label_id: usize, label: &str, score: u32, bbox: BBox) -> ComicTextBubbleRegion {
    ComicTextBubbleRegion { label_id, label: label.to_string(), score, bbox }
}

#[test]
fn merge_slice_regions_merges_duplicates_per_label() {
    let regions = vec![
        bubble_region(0, "bubble", 800_000, px(10, 10, 50, 50)),
        bubble_region(0, "bubble", 700_000, px(12, 12, 48, 48)),
        bubble_region(2, "text_free", 900_000, px(100, 100, 140, 140)),
    ];
    let merged = merge_slice_regions(regions, 500);
    assert_eq!(merged.len(), 2);
}

#[test]
fn rtdetr_labels_fall_back_to_their_id() {
    let config = RTDetrV2Config {
        id2label: vec![("0".to_string(), "bubble".to_string()), ("1".to_string(), "text_bubble".to_string())],
        num_labels: 3,
    };
    assert_eq!(config.num_labels(), 3);
    assert_eq!(config.label(1), "text_bubble");
    assert_eq!(config.label(12), "label_12");
    let empty = RTDetrV2Config { id2label: Vec::new(), num_labels: 0 };
    assert_eq!(empty.num_labels(), 1);
}

#[test]
fn rtdetr_decode_checks_shapes_and_label_ids() {
    let config = RTDetrV2Config { id2label: vec![("0".to_string(), "bubble".to_string())], num_labels: 3 };
    let boxes = [0, 0, 256, 256, 256, 256, 512, 512];
    let kept = decode_detections(&[0, 2], &[900_000, 100_000], &boxes, 300_000, &config).unwrap();
    assert_eq!(kept.len(), 1);
    assert_eq!(kept[0].label, "bubble");
    let second = decode_detections(&[0, 2], &[900_000, 800_000], &boxes, 300_000, &config).unwrap();
    assert_eq!(second[1].label, "label_2");

    assert_eq!(decode_detections(&[0], &[900_000, 1], &boxes[..4], 0, &config).unwrap_err(), DecodeError::Shape);
    assert_eq!(decode_detections(&[-1], &[900_000], &boxes[..4], 0, &config).unwrap_err(), DecodeError::NegativeLabel(-1));
    assert_eq!(decode_detections(&[5], &[900_000], &boxes[..4], 0, &config).unwrap_err(), DecodeError::LabelOutOfRange(5));
    // Skipped detections are not checked.
    assert!(decode_detections(&[5], &[100], &boxes[..4], 300_000, &config).unwrap().is_empty());
}

#[test]
fn tall_pages_are_cut_into_overlapping_strips() {
    let slicer = ImageSlicer::new();
    assert!(!slicer.should_slice(100, 350));
    assert!(slicer.should_slice(100, 351));
    // Strips of 300 px every 240 px; the 40 px remainder folds into the last.
    assert_eq!(slicer.calculate_slice_params(100, 1000), (300, 240, 4));
    let plan = slicer.slice_plan(100, 1000).unwrap();
    assert_eq!(plan, vec![(0, 300), (240, 300), (480, 300), (720, 280)]);
    assert_eq!(slicer.slice_plan(100, 300), None);
}

#[test]
fn scale_box_converts_center_form_and_clamps() {
    // Centered half-size box on a 100x200 page.
    assert_eq!(scale_box([500_000, 500_000, 500_000, 500_000], 100, 200), px(25, 50, 75, 150));
    // Box running off the top-left is clipped, not negative.
    assert_eq!(scale_box([100_000, 100_000, 500_000, 500_000], 100, 200), px(0, 0, 35, 70));
}

fn layout_config() -> LayoutOnnxConfig {
    LayoutOnnxConfig {
        input: LayoutInputConfig { name: "input".to_string(), shape: [1, 3, 8, 8] },
        classes: vec![(0, "text".to_string()), (1, "bubble".to_string())],
        recommended_thresholds: vec![("text".to_string(), 250_000)],
    }
}

#[test]
fn threshold_prefers_recommended_over_fallback() {
    let config = layout_config();
    assert_eq!(config.threshold("text", 900_000), 250_000);
    assert_eq!(config.threshold("bubble", 900_000), 900_000);
    assert_eq!((config.width(), config.height()), (8, 8));
}

#[test]
fn layout_decode_keeps_every_class_over_its_floor_by_score() {
    let config = layout_config();
    let dets = [500_000, 500_000, 500_000, 500_000, 250_000, 250_000, 100_000, 100_000];
    // Two queries, three channels (text, bubble, no-object).
    let scores = [300_000, 950_000, 0, 200_000, 920_000, 0];
    let regions = decode_layout(&config, &dets, &scores, 2, 3, 900_000, 100, 100).unwrap();
    let order: Vec<(usize, usize)> = regions.iter().map(|r| (r.query, r.label_id)).collect();
    assert_eq!(order, vec![(0, 1), (1, 1), (0, 0)]);
    assert_eq!(regions[2].label, "text");
    assert_eq!(regions[0].bbox, px(25, 25, 75, 75));
    assert!(decode_layout(&config, &dets[..4], &scores, 2, 3, 0, 100, 100).is_err());
}

#[test]
fn output_width_matches_the_export() {
    // The graph declares `output` as [batch, 6162].
    assert_eq!(OUTPUT_WIDTH, 6162);
}

#[test]
fn ctd_resizes_the_long_side_to_the_input() {
    let detector = ComicTextDetector { input_size: 1024 };
    assert_eq!(detector.resized_dimensions(2000, 1000), (1024, 512));
    assert_eq!(detector.resized_dimensions(1000, 3000), (341, 1024));
}

#[test]
fn ctd_boxes_grow_by_a_pixel_and_read_top_to_bottom() {
    let p = CtdPrediction { cx: 50 * SUBPIXELS, cy: 50 * SUBPIXELS, w: 20 * SUBPIXELS, h: 10 * SUBPIXELS, class_index: 0, confidence: 500_000 };
    let (_, _, bbox) = decode_prediction(p, (200, 200), (100, 100)).unwrap();
    assert_eq!(bbox, px(79, 89, 121, 111));
    assert!(decode_prediction(CtdPrediction { confidence: 399_999, ..p }, (200, 200), (100, 100)).is_none());

    let blocks = bboxes_to_text_blocks(vec![(px(0, 50, 10, 60), 1), (px(0, 10, 10, 20), 2)]);
    assert_eq!(blocks[0].confidence, 2);
    assert_eq!(blocks[1].confidence, 1);
}

#[test]
fn threshold_file_parses_upstream_shape() {
    let parsed: serde_json::Value = serde_json::from_str(r#"{"threshold": 0.425}"#).unwrap();
    let threshold = parsed["threshold"].as_f64().unwrap();
    assert!((threshold - 0.425).abs() < 1e-6);
    let ppm = (threshold * 1_000_000.0).round() as i64;
    assert_eq!(accepted_threshold(Some(ppm)), Some(425_000));
    assert_eq!(accepted_threshold(Some(1_000_000)), None);
    assert_eq!(accepted_threshold(Some(-1)), None);
}

#[test]
fn slice_merging_never_crosses_labels() {
    // Two identical boxes under different labels stay apart; two identical
    // boxes under one label fold into the better-scoring one.
    let regions = vec![
        bubble_region(0, "bubble", 600_000, px(10, 10, 50, 50)),
        bubble_region(1, "text_bubble", 900_000, px(10, 10, 50, 50)),
        bubble_region(0, "bubble", 800_000, px(10, 10, 50, 50)),
    ];
    let merged = merge_slice_regions(regions, 500);
    let labels: Vec<usize> = merged.iter().map(|r| r.label_id).collect();
    assert_eq!(labels, vec![0, 1]);
    assert_eq!(merged[0].score, 800_000);
}

#[test]
fn dedup_keeps_survivors_in_input_order() {
    let kept = dedup(vec![
        instance(Yolo26sClass::DialogueText, 900_000, px(0, 0, 50, 50), 0),
        instance(Yolo26sClass::Balloon, 850_000, px(200, 200, 300, 300), 1),
        instance(Yolo26sClass::DialogueText, 800_000, px(1, 1, 50, 50), 2),
        instance(Yolo26sClass::Frame, 700_000, px(0, 0, 400, 400), 3),
    ]);
    let rows: Vec<usize> = kept.iter().map(|k| k.row).collect();
    assert_eq!(rows, vec![0, 1, 3]);
}

#[test]
fn layout_detection_carries_page_size_and_masks_when_asked() {
    let config = layout_config();
    let dets = [500_000, 500_000, 500_000, 500_000, 250_000, 250_000, 100_000, 100_000];
    let scores = [300_000, 950_000, 0, 200_000, 920_000, 0];

    let bare = layout_detection(&config, &dets, &scores, None, &[], 2, 3, 900_000, 100, 80).unwrap();
    assert_eq!((bare.image_width, bare.image_height), (100, 80));
    assert_eq!(bare.regions.len(), 3);
    assert!(bare.regions.iter().all(|r| r.mask.is_none()));

    // Two 2x2 query masks: query 0 lit everywhere, query 1 nowhere.
    let data = [255u8, 255, 255, 255, 0, 0, 0, 0];
    let dims = [1usize, 2, 2, 2];
    let masked = layout_detection(&config, &dets, &scores, Some(&dims), &data, 2, 3, 900_000, 100, 80).unwrap();
    assert_eq!(masked.regions.len(), 3);
    for region in &masked.regions {
        let mask = region.mask.as_ref().expect("masks were asked for");
        assert_eq!((mask.width(), mask.height()), (100, 80));
        let lit = if region.query == 0 { 255 } else { 0 };
        assert_eq!(mask.pixel(50, 40), lit);
    }

    let short = layout_detection(&config, &dets, &scores, Some(&dims), &data[..7], 2, 3, 900_000, 100, 80);
    assert!(matches!(short, Err(LayoutDetectionError::Mask(MaskShapeError::Short))));
    let flat = layout_detection(&config, &dets, &scores, Some(&[8]), &data, 2, 3, 900_000, 100, 80);
    assert!(matches!(flat, Err(LayoutDetectionError::Mask(MaskShapeError::Rank))));
    let refused = layout_detection(&config, &dets[..4], &scores, None, &[], 2, 3, 900_000, 100, 80);
    assert!(matches!(refused, Err(LayoutDetectionError::Decode(_))));
}

#[test]
fn yolo26s_detection_masks_only_the_asked_classes() {
    let letterbox = Letterbox {
        original_width: 32,
        original_height: 32,
        resized_width: 32,
        resized_height: 32,
        input_width: 32,
        input_height: 32,
        pad_x: 0,
        pad_y: 0,
        scale_num: 1,
        scale_den: 1,
    };
    let instances = vec![
        instance(Yolo26sClass::OnomatopoeiaText, 900_000, px(0, 0, 16, 16), 0),
        // The same SFX again: dropped as a twin.
        instance(Yolo26sClass::OnomatopoeiaText, 800_000, px(0, 0, 16, 16), 1),
        instance(Yolo26sClass::Balloon, 700_000, px(16, 16, 32, 32), 2),
    ];
    // One plane, for the one SFX instance that survives: certain everywhere.
    let planes = vec![vec![255u8; 64]];
    let det = yolo26s_detection(instances, &letterbox, &[Yolo26sClass::OnomatopoeiaText], &planes, 8, 8);
    assert_eq!((det.image_width, det.image_height), (32, 32));
    assert_eq!(det.regions.len(), 2);
    let sfx = det.regions[0].mask.as_ref().expect("SFX masks were asked for");
    assert_eq!((sfx.width(), sfx.height()), (32, 32));
    assert_eq!(sfx.pixel(4, 4), 255, "inside the box");
    assert_eq!(sfx.pixel(24, 24), 0, "outside the box");
    assert!(det.regions[1].mask.is_none(), "balloon masks were not asked for");
}
