//! Messages exchanged with the front end: app metadata, LLM lifecycle and
//! catalog, engine catalog, configuration patches, and download progress.
use vstd::prelude::*;

verus! {

/// Version of the app and the device the models run on.
#[derive(Clone, Debug)]
pub struct MetaInfo {
    pub version: String,
    pub ml_device: String,
}

/// A pixel rectangle.
#[derive(Clone, Copy, Debug, PartialEq, Eq, Structural)]
pub struct Region {
    pub x: u32,
    pub y: u32,
    pub width: u32,
    pub height: u32,
}

/// The order in which a page is read.
#[derive(Clone, Copy, Debug, PartialEq, Eq, Structural)]
pub enum ReadingOrder {
    Rtl,
    Ltr,
    Custom,
}

impl Default for ReadingOrder {
    fn default() -> (r: Self)
        ensures
            r == ReadingOrder::Rtl,
    {
        ReadingOrder::Rtl
    }
}

/// Where the language model is in its life cycle.
#[derive(Clone, Copy, Debug, PartialEq, Eq, Structural)]
pub enum LlmStateStatus {
    Empty,
    Loading,
    Ready,
    Failed,
}

/// Whether a model runs locally or through a provider.
#[derive(Clone, Copy, Debug, PartialEq, Eq, Structural)]
pub enum LlmTargetKind {
    Local,
    Provider,
}

/// The model to load: local, or one offered by a provider.
#[derive(Clone, Debug)]
pub struct LlmTarget {
    pub kind: LlmTargetKind,
    pub model_id: String,
    pub provider_id: Option<String>,
}

/// The language model's state, with what it targets and why it failed.
#[derive(Clone, Debug)]
pub struct LlmState {
    pub status: LlmStateStatus,
    pub target: Option<LlmTarget>,
    pub error: Option<String>,
}

/// A model offered for loading.
#[derive(Clone, Debug)]
pub struct LlmCatalogModel {
    pub target: LlmTarget,
    pub name: String,
    pub languages: Vec<String>,
}

/// Whether a provider can list its models.
#[derive(Clone, Copy, Debug, PartialEq, Eq, Structural)]
pub enum LlmProviderCatalogStatus {
    Ready,
    MissingConfiguration,
    DiscoveryFailed,
}

/// One provider and the models it offers.
#[derive(Clone, Debug)]
pub struct LlmProviderCatalog {
    pub id: String,
    pub name: String,
    pub requires_api_key: bool,
    pub requires_base_url: bool,
    pub has_api_key: bool,
    pub base_url: Option<String>,
    pub status: LlmProviderCatalogStatus,
    pub error: Option<String>,
    pub models: Vec<LlmCatalogModel>,
}

/// Every model that can be loaded.
#[derive(Clone, Debug)]
pub struct LlmCatalog {
    pub local_models: Vec<LlmCatalogModel>,
    pub providers: Vec<LlmProviderCatalog>,
}

/// An engine and the artifacts it produces.
#[derive(Clone, Debug)]
pub struct EngineCatalogEntry {
    pub id: String,
    pub name: String,
    pub produces: Vec<String>,
}

/// The engines available for each pipeline stage.
#[derive(Clone, Debug)]
pub struct EngineCatalog {
    pub detectors: Vec<EngineCatalogEntry>,
    pub font_detectors: Vec<EngineCatalogEntry>,
    pub segmenters: Vec<EngineCatalogEntry>,
    pub bubble_segmenters: Vec<EngineCatalogEntry>,
    pub ocr: Vec<EngineCatalogEntry>,
    pub translators: Vec<EngineCatalogEntry>,
    pub inpainters: Vec<EngineCatalogEntry>,
    pub renderers: Vec<EngineCatalogEntry>,
}

/// A sparse change to the configuration; a missing part is left as it is.
/// `providers`, when present, replaces the whole list.
#[derive(Clone, Debug, Default)]
pub struct ConfigPatch {
    pub data: Option<DataConfigPatch>,
    pub http: Option<HttpConfigPatch>,
    pub pipeline: Option<PipelineConfigPatch>,
    pub providers: Option<Vec<ProviderPatch>>,
    pub huggingface: Option<HuggingFaceConfigPatch>,
}

/// The HuggingFace token: `"[REDACTED]"` keeps the stored one, empty clears.
#[derive(Clone, Debug, Default)]
pub struct HuggingFaceConfigPatch {
    pub token: Option<String>,
}

/// Where the app keeps its data.
#[derive(Clone, Debug, Default)]
pub struct DataConfigPatch {
    pub path: Option<String>,
}

/// HTTP timeouts (seconds) and retries.
#[derive(Clone, Debug, Default)]
pub struct HttpConfigPatch {
    pub connect_timeout: Option<u64>,
    pub read_timeout: Option<u64>,
    pub max_retries: Option<u32>,
}

/// The engine chosen for each pipeline stage.
#[derive(Clone, Debug, Default)]
pub struct PipelineConfigPatch {
    pub detector: Option<String>,
    pub font_detector: Option<String>,
    pub segmenter: Option<String>,
    pub bubble_segmenter: Option<String>,
    pub ocr: Option<String>,
    pub translator: Option<String>,
    pub inpainter: Option<String>,
    pub renderer: Option<String>,
}

/// A provider entry in a patch: `"[REDACTED]"` keeps the stored key, empty
/// clears it.
#[derive(Clone, Debug)]
pub struct ProviderPatch {
    pub id: String,
    pub base_url: Option<String>,
    pub api_key: Option<String>,
}

/// Where a download stands.
#[derive(Clone, Debug)]
pub enum DownloadStatus {
    Started,
    Downloading,
    Completed,
    Failed { reason: String },
}

/// Progress of one download; `total` is unknown until the size is.
#[derive(Clone, Debug)]
pub struct DownloadProgress {
    pub id: String,
    pub filename: String,
    pub downloaded: u64,
    pub total: Option<u64>,
    pub status: DownloadStatus,
}

/// Every download in flight or recently finished.
#[derive(Clone, Debug)]
pub struct ListDownloadsResponse {
    pub downloads: Vec<DownloadProgress>,
}

/// A request to download a model package, by package id.
#[derive(Clone, Debug)]
pub struct StartDownloadRequest {
    pub model_id: String,
}

/// The operation started for a download; its id is the package id.
#[derive(Clone, Debug)]
pub struct StartDownloadResponse {
    pub operation_id: String,
}

} // verus!
