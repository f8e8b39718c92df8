use std::path::Path;

use koharu::annotate::{
    badge_origin, badge_scale, badge_size, badge_text, glyph_for_char, glyph_pixel_on,
    stroke_radius,
};
use koharu::config::{PipelineConfig, ProviderConfig, resolve_steps, upsert_provider_secret};
use koharu::downloads::{
    HfTokens, PartPathError, TransferProgress, access_hint, authorization_for, chunk_ranges,
    discover_token, is_huggingface_location, is_huggingface_url, part_name, part_path,
    start_download,
};
use koharu::font::{
    FontColors, OutputShapeError, check_output_dims, clamp_black, clamp_white, colors_similar,
    gray, normalize_font_prediction,
};
use koharu::protocol::{DownloadStatus, StartDownloadRequest};
use koharu::text::{decimal, trim};

fn with_discovered_token(discovered: Option<&str>) -> HfTokens {
    HfTokens::new(discovered.map(str::to_string))
}

#[test]
fn configured_token_wins_and_clearing_falls_back_to_discovery() {
    let mut downloads = with_discovered_token(Some("from-the-environment"));
    assert_eq!(downloads.hf_token().as_deref(), Some("from-the-environment"));

    downloads.set_hf_token(Some("from-settings"));
    assert_eq!(downloads.hf_token().as_deref(), Some("from-settings"));

    // Clearing the app's own setting must not hide a token the machine
    // already had.
    downloads.set_hf_token(None);
    assert_eq!(downloads.hf_token().as_deref(), Some("from-the-environment"));

    // Whitespace is not a token.
    downloads.set_hf_token(Some("   "));
    assert_eq!(downloads.hf_token().as_deref(), Some("from-the-environment"));

    let mut bare = with_discovered_token(None);
    assert!(!bare.has_hf_token());
    bare.set_hf_token(Some(" padded "));
    assert_eq!(bare.hf_token().as_deref(), Some("padded"));
    assert!(bare.has_hf_token());
}

#[test]
fn partial_download_path_appends_suffix() {
    let part = part_path("/tmp/models/config.json").unwrap();
    assert_eq!(Path::new(&part), Path::new("/tmp/models/config.json.part"));
}

#[test]
fn partial_download_path_needs_a_file_name() {
    assert_eq!(part_path("/").unwrap_err(), PartPathError::NoFileName);
    assert_eq!(Path::new(&part_path("models/config.json").unwrap()), Path::new("models/config.json.part"));
    assert_eq!(part_name("weights.onnx"), "weights.onnx.part");
}

#[test]
fn partial_download_path_keeps_the_directory() {
    assert_eq!(Path::new(&part_path("config.json").unwrap()), Path::new("config.json.part"));
    assert_eq!(Path::new(&part_path("/config.json").unwrap()), Path::new("/config.json.part"));
    assert_eq!(Path::new(&part_path("a/b/c").unwrap()), Path::new("a/b/c.part"));
}

#[test]
fn partial_download_path_refuses_parent_directory() {
    assert_eq!(part_path("..").unwrap_err(), PartPathError::NoFileName);
    assert_eq!(part_path("models/..").unwrap_err(), PartPathError::NoFileName);
}

#[test]
fn only_huggingface_hosts_receive_the_token() {
    assert!(is_huggingface_url("https://huggingface.co/deepghs/AnimeText_yolo/resolve/main/model.onnx"));
    assert!(is_huggingface_url("https://cdn-lfs.huggingface.co/repos/x"));
    // Lookalikes and plain HTTP must never see an Authorization header.
    assert!(!is_huggingface_url("https://huggingface.co.evil.test/x"));
    assert!(!is_huggingface_url("https://nothuggingface.co/x"));
    assert!(!is_huggingface_url("http://huggingface.co/x"));
    assert!(!is_huggingface_url("https://github.com/x"));
    assert!(!is_huggingface_url("not a url"));
}

#[test]
fn huggingface_location_checks_scheme_and_host() {
    assert!(is_huggingface_location("https", Some("huggingface.co")));
    assert!(is_huggingface_location("https", Some("cdn-lfs.huggingface.co")));
    assert!(!is_huggingface_location("https", Some("xhuggingface.co")));
    assert!(!is_huggingface_location("https", None));
    assert!(!is_huggingface_location("http", Some("huggingface.co")));
}

#[test]
fn authorization_goes_only_to_huggingface() {
    let mut tokens = with_discovered_token(Some("secret"));
    assert_eq!(
        authorization_for(&tokens, "https://huggingface.co/x").as_deref(),
        Some("Bearer secret")
    );
    assert_eq!(authorization_for(&tokens, "https://example.com/x"), None);
    tokens.set_hf_token(Some(" mine "));
    assert_eq!(
        authorization_for(&tokens, "https://huggingface.co/x").as_deref(),
        Some("Bearer mine")
    );
    assert_eq!(authorization_for(&with_discovered_token(None), "https://huggingface.co/x"), None);
}

#[test]
fn discovered_token_prefers_the_environment() {
    let env = vec![None, Some("  ".to_string()), Some(" env-token ".to_string())];
    assert_eq!(
        discover_token(&env, Some("cache".to_string()), Some("login".to_string())).as_deref(),
        Some("env-token")
    );
    assert_eq!(
        discover_token(&vec![None], None, Some("login".to_string())).as_deref(),
        Some("login")
    );
    assert_eq!(
        discover_token(&vec![], Some("cache".to_string()), Some("login".to_string())).as_deref(),
        Some("cache")
    );
    assert_eq!(discover_token(&vec![], None, None), None);
}

#[test]
fn chunks_cover_the_file_in_order() {
    const MIB: u64 = 1024 * 1024;
    assert_eq!(chunk_ranges(0), vec![]);
    assert_eq!(chunk_ranges(1), vec![(0, 0)]);
    assert_eq!(
        chunk_ranges(25 * MIB),
        vec![(0, 10 * MIB - 1), (10 * MIB, 20 * MIB - 1), (20 * MIB, 25 * MIB - 1)]
    );
    assert_eq!(chunk_ranges(20 * MIB).len(), 2);
}

#[test]
fn gated_repositories_get_an_actionable_hint() {
    let hint = access_hint("HTTP status client error (401 Unauthorized)", "deepghs/AnimeText_yolo", false)
        .expect("a 401 gets a hint");
    assert!(hint.starts_with("`deepghs/AnimeText_yolo` is a gated repository and no HuggingFace token"));
    assert!(hint.contains("https://huggingface.co/deepghs/AnimeText_yolo"));
    let with_token = access_hint("403 Forbidden", "r", true).unwrap();
    assert!(with_token.contains("does not have access"));
    assert_eq!(access_hint("connection reset", "r", true), None);
}

#[test]
fn downloads_start_only_for_known_packages() {
    let catalog = vec!["model:a".to_string(), "model:b".to_string()];
    let (index, response) =
        start_download(&catalog, StartDownloadRequest { model_id: "model:b".to_string() }).unwrap();
    assert_eq!(index, 1);
    assert_eq!(response.operation_id, "model:b");
    let refused = start_download(&catalog, StartDownloadRequest { model_id: "model:c".to_string() }).unwrap_err();
    assert_eq!(refused.model_id, "model:c");
}

#[test]
fn transfer_progress_counts_bytes() {
    let mut progress = TransferProgress::new();
    progress.start(Some(100));
    progress.advance(30);
    progress.advance(20);
    let event = progress.report("model.onnx", DownloadStatus::Downloading);
    assert_eq!(event.downloaded, 50);
    assert_eq!(event.total, Some(100));
    assert_eq!(event.filename, "model.onnx");
    progress.start(None);
    assert_eq!(progress.downloaded, 0);
}

fn provider(id: &str, key: Option<&str>) -> ProviderConfig {
    ProviderConfig { id: id.to_string(), base_url: None, api_key: key.map(str::to_string) }
}

#[test]
fn provider_secrets_update_in_place_or_append() {
    let mut providers = vec![provider("openai", None), provider("gemini", Some("old"))];
    upsert_provider_secret(&mut providers, "gemini", Some("new"));
    assert_eq!(providers.len(), 2);
    assert_eq!(providers[1].api_key.as_deref(), Some("new"));

    upsert_provider_secret(&mut providers, "mistral", Some("key"));
    assert_eq!(providers.len(), 3);
    assert_eq!(providers[2].id, "mistral");
    assert_eq!(providers[2].base_url, None);

    upsert_provider_secret(&mut providers, "gemini", None);
    assert_eq!(providers[1].api_key, None);
    assert_eq!(providers.len(), 3);
}

fn pipeline() -> PipelineConfig {
    PipelineConfig {
        detector: "det".to_string(),
        font_detector: "font".to_string(),
        segmenter: "".to_string(),
        bubble_segmenter: "bubble".to_string(),
        ocr: "ocr".to_string(),
        translator: "llm".to_string(),
        inpainter: "inpaint".to_string(),
        renderer: "render".to_string(),
    }
}

#[test]
fn steps_follow_the_pipeline_order() {
    assert_eq!(
        resolve_steps(None, false, &pipeline()),
        vec!["det", "bubble", "font", "ocr", "inpaint", "render"]
    );
    assert_eq!(
        resolve_steps(None, true, &pipeline()),
        vec!["det", "bubble", "font", "ocr", "llm", "inpaint", "render"]
    );
    assert_eq!(
        resolve_steps(Some(vec!["a".to_string(), "".to_string(), "b".to_string()]), true, &pipeline()),
        vec!["a", "b"]
    );
}

#[test]
fn near_black_and_near_white_snap() {
    assert!(gray([100, 105, 110]));
    assert!(!gray([100, 105, 111]));
    assert_eq!(clamp_black([50, 55, 60]), [0, 0, 0]);
    assert_eq!(clamp_black([10, 12, 40]), [10, 12, 40]);
    assert_eq!(clamp_black([10, 12, 5]), [0, 0, 0]);
    assert_eq!(clamp_white([200, 200, 205]), [255, 255, 255]);
    assert_eq!(clamp_white([250, 245, 200]), [250, 245, 200]);
    assert!(colors_similar([0, 0, 0], [16, 16, 16]));
    assert!(!colors_similar([0, 0, 0], [17, 0, 0]));
}

#[test]
fn a_stroke_like_the_text_is_dropped() {
    let mut p = FontColors { text_color: [10, 10, 10], stroke_color: [20, 25, 30], stroke_width: 512 };
    normalize_font_prediction(&mut p);
    assert_eq!(p.text_color, [0, 0, 0]);
    assert_eq!(p.stroke_width, 0);
    assert_eq!(p.stroke_color, [0, 0, 0]);

    let mut q = FontColors { text_color: [0, 0, 0], stroke_color: [255, 255, 250], stroke_width: 256 };
    normalize_font_prediction(&mut q);
    assert_eq!(q.stroke_color, [255, 255, 255]);
    assert_eq!(q.stroke_width, 256);
    let once = q;
    normalize_font_prediction(&mut q);
    assert_eq!((q.text_color, q.stroke_color, q.stroke_width), (once.text_color, once.stroke_color, once.stroke_width));
}

#[test]
fn font_output_shape_is_checked() {
    assert_eq!(check_output_dims(&[2, 6162], 2), Ok(()));
    assert_eq!(check_output_dims(&[2, 6162, 1], 2), Err(OutputShapeError::Rank));
    assert_eq!(check_output_dims(&[2, 6161], 2), Err(OutputShapeError::Width));
    assert_eq!(check_output_dims(&[3, 6162], 2), Err(OutputShapeError::Rows));
}

#[test]
fn stroke_grows_with_the_page() {
    assert_eq!(stroke_radius(100, 100), 1);
    assert_eq!(stroke_radius(2700, 1000), 2);
    assert_eq!(stroke_radius(2699, 1000), 1);
    assert_eq!(stroke_radius(1000, 100_000), 8);
    assert_eq!(badge_scale(1), 2);
    assert_eq!(badge_scale(4), 5);
}

#[test]
fn badge_font_and_layout() {
    assert_eq!(glyph_for_char('a'), glyph_for_char('A'));
    assert_eq!(glyph_for_char('-'), [0, 0, 0, 0b11111, 0, 0, 0]);
    assert_eq!(glyph_for_char('@'), [0b11111, 0b00001, 0b00010, 0b00100, 0, 0b00100, 0]);
    let one = glyph_for_char('1');
    assert!(glyph_pixel_on(&one, 0, 2));
    assert!(!glyph_pixel_on(&one, 0, 0));

    // "TEXT" at scale 2: padding 2, four 10-wide glyphs, three 2-wide gaps.
    assert_eq!(badge_size("TEXT", 2), (2 * 2 + 4 * 10 + 3 * 2, 2 * 2 + 14));
    assert_eq!(badge_size("", 3), (6, 27));
    assert_eq!(badge_text("text_free"), "TEXT FREE".chars().collect::<Vec<_>>());

    // Above the box when there is room, below its top edge otherwise, and
    // kept on the image.
    assert_eq!(badge_origin(50, 100, 40, 20, 2, 500, 500), (50, 78));
    assert_eq!(badge_origin(50, 10, 40, 20, 2, 500, 500), (50, 12));
    assert_eq!(badge_origin(480, 10, 40, 20, 2, 500, 500), (460, 12));
}

#[test]
fn decimal_and_trim() {
    assert_eq!(decimal(0), "0");
    assert_eq!(decimal(1234), "1234");
    assert_eq!(trim("\t padded \n"), "padded");
    assert_eq!(trim("   "), "");
}
