//! Verified core of a manga text-detection pipeline: box geometry, the
//! multi-detector fusion rules, per-detector post-processing and the small
//! pieces of bookkeeping around model downloads and configuration.

pub mod geometry;
pub mod fusion;
pub mod fusion_laws;
pub mod mask;
pub mod yolo26s;
pub mod blocks;
pub mod comic_bubble;
pub mod text;
pub mod anime_text;
pub mod font;
pub mod annotate;
pub mod downloads;
pub mod config;
pub mod protocol;
pub mod rtdetr;
pub mod layout;
pub mod ctd;
pub mod engine;
pub mod mask_decode;
pub mod detections;
