use koharu::annotate::blend_mask;
use koharu::downloads::{InvalidContentLength, parse_content_length};
use koharu::geometry::BBox;
use koharu::mask::TextMask;
use koharu::mask_decode::{MaskShapeError, decode_layout_mask, mask_to_page, mask_window};
use koharu::yolo26s::{Letterbox, YoloShapeError, detection_rows, prototype_size};

fn px(x1: i32, y1: i32, x2: i32, y2: i32) -> BBox {
    BBox::from_pixels(x1, y1, x2, y2)
}

/// A probability as the byte the decoder resamples.
fn probability_byte(value: f32) -> u8 {
    (value.clamp(0.0, 1.0) * 255.0).round() as u8
}

fn sigmoid(x: f32) -> f32 {
    1.0 / (1.0 + (-x).exp())
}

#[test]
fn mask_decode_thresholds_at_half_and_crops_to_the_box() {
    // A page that needs no resize or padding, so the mask geometry is the
    // only thing under test.
    let letterbox = Letterbox {
        original_width: 32,
        original_height: 32,
        resized_width: 32,
        resized_height: 32,
        input_width: 32,
        input_height: 32,
        pad_x: 0,
        pad_y: 0,
        scale_num: 1,
        scale_den: 1,
    };
    // Certain in the top-left quadrant and the bottom-right one.
    let mut probabilities = vec![0.0f32; 64];
    for y in 0..8 {
        for x in 0..8 {
            let quadrant = (x < 4 && y < 4) || (x >= 4 && y >= 4);
            probabilities[y * 8 + x] = if quadrant { 1.0 } else { 0.0 };
        }
    }
    let bytes: Vec<u8> = probabilities.iter().map(|&p| probability_byte(p)).collect();

    let mask = mask_to_page(&bytes, 8, 8, &letterbox, px(0, 0, 16, 16));
    assert_eq!(mask.pixel(4, 4), 255, "inside the box");
    assert_eq!(mask.pixel(24, 24), 0, "another instance's mass, cropped away by the box");
    assert_eq!(mask.pixel(24, 4), 0, "low probability");
}

#[test]
fn mask_decode_thresholds_at_logit_zero() {
    // 2x2 logits: only the first cell is positive.
    let data = [4.0f32, -4.0, -4.0, -4.0];
    let (offset, stride, width, height) = mask_window(&[1, 1, 2, 2], data.len(), 0).unwrap();
    let small: Vec<u8> = data[offset..offset + stride].iter().map(|&l| probability_byte(sigmoid(l))).collect();
    let mask = decode_layout_mask(&small, width as u32, height as u32, 2, 2);
    assert_eq!(mask.pixel(0, 0), 255);
    assert_eq!(mask.pixel(1, 1), 0);
}

#[test]
fn mask_window_locates_each_query() {
    assert_eq!(mask_window(&[1, 3, 2, 4], 24, 2), Ok((16, 8, 4, 2)));
    assert_eq!(mask_window(&[1, 3, 2, 4], 23, 2), Err(MaskShapeError::Short));
    assert_eq!(mask_window(&[3, 2, 4], 24, 0), Err(MaskShapeError::Rank));
}

#[test]
fn decoded_masks_take_the_page_size() {
    let small = vec![255u8, 0, 0, 255];
    let mask = decode_layout_mask(&small, 2, 2, 8, 8);
    assert_eq!((mask.width(), mask.height()), (8, 8));
    assert_eq!(mask.pixel(0, 0), 255);
    assert_eq!(mask.pixel(7, 0), 0);
}

#[test]
fn content_length_accepts_only_unsigned_decimals() {
    assert_eq!(parse_content_length(" 1024 "), Ok(1024));
    assert_eq!(parse_content_length("+7"), Ok(7));
    assert_eq!(parse_content_length("18446744073709551615"), Ok(u64::MAX));
    assert_eq!(parse_content_length("18446744073709551616"), Err(InvalidContentLength));
    assert_eq!(parse_content_length(""), Err(InvalidContentLength));
    assert_eq!(parse_content_length("+"), Err(InvalidContentLength));
    assert_eq!(parse_content_length("12a"), Err(InvalidContentLength));
    assert_eq!(parse_content_length("-1"), Err(InvalidContentLength));
}

#[test]
fn output_shapes_are_checked() {
    assert_eq!(detection_rows(&[1, 300, 38]), Ok(300));
    assert_eq!(detection_rows(&[2, 300, 38]), Err(YoloShapeError::Detections));
    assert_eq!(detection_rows(&[1, 300, 37]), Err(YoloShapeError::Detections));
    assert_eq!(prototype_size(&[1, 32, 160, 232]), Ok((232, 160)));
    assert_eq!(prototype_size(&[1, 31, 160, 232]), Err(YoloShapeError::Prototypes));
}

#[test]
fn masks_tint_only_lit_pixels() {
    let mask = TextMask::from_raw(2, 1, vec![255, 0]).unwrap();
    // A 3x1 page: the third pixel lies beyond the mask.
    let mut page = vec![100, 100, 100, 255, 100, 100, 100, 255, 100, 100, 100, 255];
    blend_mask(&mut page, 3, 1, &mask, [0, 255, 0, 255]);
    assert_eq!(&page[0..4], &[60, 162, 60, 255]);
    assert_eq!(&page[4..12], &[100, 100, 100, 255, 100, 100, 100, 255]);
}
