//! Multi-detector fusion.
//!
//! Detectors disagree. Several models propose balloons and text; the union of
//! everything maximizes recall, but erasing a false positive is destructive.
//! Fusion therefore separates two questions: *is there something here* (keep
//! it, for OCR and review) and *is the evidence strong enough to inpaint
//! without asking* (`accepted`).
//!
//! Pure geometry: callers map detector output in and fused regions out. Pixel
//! evidence arrives through a [`CoverageSource`], so this module does not care
//! how the text mask is stored.
use vstd::prelude::*;
use crate::geometry::{
    BBox, Ratio, iou_reaches, ioa_reaches, iou_at_least, ioa_at_least,
};

verus! {

/// Which model proposed a candidate. Fusion counts *distinct* detectors, so
/// two boxes from the same model are one vote.
#[derive(Clone, Copy, Debug, PartialEq, Eq, Hash, Structural)]
pub enum Detector {
    /// Structural layout model with instance masks.
    Layout,
    /// RT-DETR-v2: bubble / text_bubble / text_free.
    RtDetr,
    /// AnimeText YOLO: broad text boxes.
    AnimeText,
    /// comic-text-detector: text boxes plus the authoritative pixel mask.
    ComicTextDetector,
}

/// What a candidate claims to be.
#[derive(Clone, Copy, Debug, PartialEq, Eq, Hash, Structural)]
pub enum Class {
    Bubble,
    Text,
    /// Onomatopoeia / sound effects. Proposal-only: SFX boxes cover art as
    /// often as glyphs, so they need pixel or second-detector confirmation.
    Sfx,
}

/// How a fused text region relates to the page.
#[derive(Clone, Copy, Debug, PartialEq, Eq, Hash, Structural)]
pub enum Role {
    /// Text substantially inside a balloon.
    Dialogue,
    /// Text outside every balloon: titles, captions, credits, narration.
    Outside,
    /// Sound effect outside every balloon.
    Sfx,
}

/// How much of its own box a decoded instance mask lit: `lit` of the box's
/// `area` pixels.
#[derive(Clone, Copy, Debug, PartialEq, Eq, Structural)]
pub struct MaskFill {
    pub lit: u64,
    pub area: u64,
}

/// `f` lights at least `ppm / 10^6` of its box.
pub open spec fn fill_meets(f: MaskFill, ppm: int) -> bool {
    f.lit * 1_000_000 >= ppm * f.area
}

impl MaskFill {
    /// The fill is at least `ppm` parts per million.
    pub fn reaches(&self, ppm: u32) -> (r: bool)
        ensures
            r == fill_meets(*self, ppm as int),
    {
        assert(self.lit * 1_000_000 <= 0x1_0000_0000_0000_0000 * 1_000_000) by (nonlinear_arith)
            requires
                self.lit <= 0xffff_ffff_ffff_ffff,
        ;
        assert(ppm * self.area <= 0x1_0000_0000 * 0x1_0000_0000_0000_0000) by (nonlinear_arith)
            requires
                self.area <= 0xffff_ffff_ffff_ffff,
                ppm <= 0xffff_ffff,
        ;
        (self.lit as u128) * 1_000_000 >= (ppm as u128) * (self.area as u128)
    }
}

/// One detector's proposal. `score` is in parts per million.
#[derive(Clone, Copy, Debug, PartialEq, Eq, Structural)]
pub struct Candidate {
    pub bbox: BBox,
    pub detector: Detector,
    pub class: Class,
    pub score: u32,
    /// The detector also produced an instance mask for this box. Only the
    /// layout model does.
    pub has_mask: bool,
    /// How much of the box that instance mask lit, where the mask was decoded;
    /// `None` where nothing was decoded and so nothing measured.
    pub mask_fill: Option<MaskFill>,
}

/// A fused balloon.
#[derive(Clone, Debug)]
pub struct FusedBubble {
    pub bbox: BBox,
    pub score: u32,
    pub detectors: Vec<Detector>,
    /// Two detectors agreed, or the layout model produced a strong mask.
    pub accepted: bool,
}

/// A fused text region.
#[derive(Clone, Debug)]
pub struct FusedRegion {
    pub bbox: BBox,
    pub role: Role,
    pub score: u32,
    pub detectors: Vec<Detector>,
    /// Safe to inpaint without confirmation.
    pub accepted: bool,
    /// Index into `Fusion::bubbles` for `Role::Dialogue`.
    pub bubble: Option<usize>,
    /// The decoded-mask fill of the best-scoring candidate that carried one.
    pub mask_fill: Option<MaskFill>,
}

/// The result of fusing one page.
#[derive(Clone, Debug)]
pub struct Fusion {
    pub bubbles: Vec<FusedBubble>,
    pub regions: Vec<FusedRegion>,
}

/// Fusion thresholds, all in parts per million.
#[derive(Clone, Copy, Debug, PartialEq, Eq, Structural)]
pub struct FusionConfig {
    /// Two boxes of the same class are the same object at or above this IoU.
    pub match_iou: u32,
    /// ...or when either box has this fraction of its own area inside the other.
    pub match_ioa: u32,
    /// Fraction of a text box inside a balloon for it to count as dialogue.
    pub dialogue_ioa: u32,
    /// Fraction of a box covered by the pixel text mask that counts as pixel
    /// confirmation.
    pub mask_coverage: u32,
    /// Layout-model score at which its own instance mask alone accepts a
    /// balloon.
    pub strong_mask_score: u32,
    /// Fraction of an SFX box that its decoded instance mask must light for
    /// the mask to count as evidence: a mask that traced nothing is no mask.
    pub sfx_mask_fill: u32,
}

impl Default for FusionConfig {
    fn default() -> (c: Self)
        ensures
            c.match_iou == 300_000,
            c.match_ioa == 500_000,
            c.dialogue_ioa == 600_000,
            c.mask_coverage == 100_000,
            c.strong_mask_score == 500_000,
            c.sfx_mask_fill == 100_000,
    {
        FusionConfig {
            match_iou: 300_000,
            match_ioa: 500_000,
            dialogue_ioa: 600_000,
            mask_coverage: 100_000,
            strong_mask_score: 500_000,
            sfx_mask_fill: 100_000,
        }
    }
}

/// `r >= ppm / 10^6`.
pub open spec fn ratio_meets(r: Ratio, ppm: int) -> bool {
    r.num * 1_000_000 >= ppm * r.den
}

/// Where pixel evidence comes from: the fraction of a box that the
/// authoritative text mask covers.
pub trait CoverageSource {
    spec fn coverage_spec(&self, b: BBox) -> Ratio;

    fn coverage(&self, b: BBox) -> (r: Ratio)
        ensures
            r == self.coverage_spec(b),
            r.den > 0,
            r.num <= 0x1_0000_0000_0000_0000_0000,
            r.den <= 0x1_0000_0000_0000_0000_0000,
    ;
}

/// The same coverage for every box; `0 / 1` stands for "no mask".
#[derive(Clone, Copy, Debug)]
pub struct UniformCoverage {
    num: u32,
    den: u32,
}

impl UniformCoverage {
    pub closed spec fn ratio_spec(self) -> Ratio {
        Ratio { num: self.num as u128, den: if self.den == 0 { 1 } else { self.den as u128 } }
    }

    /// Every box is `num / den` covered.
    pub fn new(num: u32, den: u32) -> (u: UniformCoverage)
        requires
            den > 0,
        ensures
            u.ratio_spec() == (Ratio { num: num as u128, den: den as u128 }),
    {
        UniformCoverage { num, den }
    }

    /// No pixel evidence anywhere.
    pub fn none() -> (u: UniformCoverage)
        ensures
            u.ratio_spec() == (Ratio { num: 0, den: 1 }),
    {
        UniformCoverage { num: 0, den: 1 }
    }
}

impl CoverageSource for UniformCoverage {
    open spec fn coverage_spec(&self, b: BBox) -> Ratio {
        self.ratio_spec()
    }

    fn coverage(&self, b: BBox) -> (r: Ratio) {
        Ratio { num: self.num as u128, den: if self.den == 0 { 1 } else { self.den as u128 } }
    }
}

// ---------------------------------------------------------------------------
// Same-object test
// ---------------------------------------------------------------------------

/// Same-object test: IoU, or either box mostly swallowed by the other.
pub open spec fn overlaps_spec(a: BBox, b: BBox, c: FusionConfig) -> bool {
    ||| iou_reaches(a, b, c.match_iou as int)
    ||| ioa_reaches(a, b, c.match_ioa as int)
    ||| ioa_reaches(b, a, c.match_ioa as int)
}

/// Same-object test: IoU, or either box mostly swallowed by the other.
pub fn overlaps(a: BBox, b: BBox, config: &FusionConfig) -> (r: bool)
    ensures
        r == overlaps_spec(a, b, *config),
{
    iou_at_least(a, b, config.match_iou) || ioa_at_least(a, b, config.match_ioa) || ioa_at_least(
        b,
        a,
        config.match_ioa,
    )
}

// ---------------------------------------------------------------------------
// Clustering
// ---------------------------------------------------------------------------

/// Candidates that describe one object.
#[derive(Debug)]
pub struct Cluster {
    pub bbox: BBox,
    pub score: u32,
    pub detectors: Vec<Detector>,
    /// Best score among candidates that carried an instance mask.
    pub masked_score: Option<u32>,
    /// Decoded-mask fill of the best-scoring candidate that carried one.
    pub mask_fill: Option<MaskFill>,
}

pub struct ClusterView {
    pub bbox: BBox,
    pub score: u32,
    pub detectors: Seq<Detector>,
    pub masked_score: Option<u32>,
    pub mask_fill: Option<MaskFill>,
}

impl View for Cluster {
    type V = ClusterView;

    open spec fn view(&self) -> ClusterView {
        ClusterView {
            bbox: self.bbox,
            score: self.score,
            detectors: self.detectors@,
            masked_score: self.masked_score,
            mask_fill: self.mask_fill,
        }
    }
}

pub open spec fn clusters_view(v: Seq<Cluster>) -> Seq<ClusterView> {
    v.map_values(|c: Cluster| c@)
}

/// The candidates of one class, in their original order.
pub open spec fn of_class(s: Seq<Candidate>, class: Class) -> Seq<Candidate>
    decreases s.len(),
{
    if s.len() == 0 {
        seq![]
    } else {
        let rest = of_class(s.drop_last(), class);
        if s.last().class == class {
            rest.push(s.last())
        } else {
            rest
        }
    }
}

/// Insert `c` behind every element, counted from the back, that scores at
/// least as much: one step of a stable sort by descending score.
pub open spec fn insert_by_score(sorted: Seq<Candidate>, c: Candidate) -> Seq<Candidate>
    decreases sorted.len(),
{
    if sorted.len() == 0 {
        seq![c]
    } else if sorted.last().score >= c.score {
        sorted.push(c)
    } else {
        insert_by_score(sorted.drop_last(), c).push(sorted.last())
    }
}

/// Stable sort by descending score.
pub open spec fn sort_by_score(s: Seq<Candidate>) -> Seq<Candidate>
    decreases s.len(),
{
    if s.len() == 0 {
        seq![]
    } else {
        insert_by_score(sort_by_score(s.drop_last()), s.last())
    }
}

/// Index of the first cluster whose box matches `b`.
pub open spec fn first_match(s: Seq<ClusterView>, b: BBox, c: FusionConfig) -> Option<int>
    decreases s.len(),
{
    if s.len() == 0 {
        None
    } else {
        match first_match(s.drop_last(), b, c) {
            Some(i) => Some(i),
            None => if overlaps_spec(s.last().bbox, b, c) {
                Some(s.len() - 1)
            } else {
                None
            },
        }
    }
}

/// `first_match` finds exactly the first matching cluster.
pub proof fn lemma_first_match(s: Seq<ClusterView>, b: BBox, c: FusionConfig)
    ensures
        match first_match(s, b, c) {
            Some(i) => 0 <= i < s.len() && overlaps_spec(s[i].bbox, b, c) && forall|j: int|
                0 <= j < i ==> !overlaps_spec(#[trigger] s[j].bbox, b, c),
            None => forall|j: int| 0 <= j < s.len() ==> !overlaps_spec(#[trigger] s[j].bbox, b, c),
        },
    decreases s.len(),
{
    if s.len() > 0 {
        lemma_first_match(s.drop_last(), b, c);
        assert forall|j: int| 0 <= j < s.len() - 1 implies #[trigger] s[j] == s.drop_last()[j] by {}
    }
}

/// A new cluster around a single candidate.
pub open spec fn new_cluster(c: Candidate) -> ClusterView {
    ClusterView {
        bbox: c.bbox,
        score: c.score,
        detectors: seq![c.detector],
        masked_score: if c.has_mask {
            Some(c.score)
        } else {
            None
        },
        mask_fill: c.mask_fill,
    }
}

/// A cluster after taking in one more (lower-scoring) candidate: its detector
/// is counted once, its mask score raises the masked score, and its fill is
/// kept only when no better-scoring candidate brought one.
pub open spec fn absorb(cl: ClusterView, c: Candidate) -> ClusterView {
    ClusterView {
        detectors: if cl.detectors.contains(c.detector) {
            cl.detectors
        } else {
            cl.detectors.push(c.detector)
        },
        masked_score: if c.has_mask {
            Some(
                match cl.masked_score {
                    Some(s) => if s >= c.score {
                        s
                    } else {
                        c.score
                    },
                    None => c.score,
                },
            )
        } else {
            cl.masked_score
        },
        mask_fill: if cl.mask_fill is Some {
            cl.mask_fill
        } else {
            c.mask_fill
        },
        ..cl
    }
}

/// Greedy clustering of score-sorted candidates: each joins the first cluster
/// whose representative box matches it, or founds a new one.
pub open spec fn cluster_fold(s: Seq<Candidate>, c: FusionConfig) -> Seq<ClusterView>
    decreases s.len(),
{
    if s.len() == 0 {
        seq![]
    } else {
        let prev = cluster_fold(s.drop_last(), c);
        match first_match(prev, s.last().bbox, c) {
            Some(i) => prev.update(i, absorb(prev[i], s.last())),
            None => prev.push(new_cluster(s.last())),
        }
    }
}

/// The clusters of one class.
pub open spec fn cluster_spec(cands: Seq<Candidate>, class: Class, c: FusionConfig) -> Seq<
    ClusterView,
> {
    cluster_fold(sort_by_score(of_class(cands, class)), c)
}

fn of_class_exec(candidates: &[Candidate], class: Class) -> (r: Vec<Candidate>)
    ensures
        r@ == of_class(candidates@, class),
{
    let mut r: Vec<Candidate> = Vec::new();
    let mut i: usize = 0;
    while i < candidates.len()
        invariant
            i <= candidates@.len(),
            r@ == of_class(candidates@.take(i as int), class),
        decreases candidates.len() - i,
    {
        proof {
            assert(candidates@.take(i + 1).drop_last() == candidates@.take(i as int));
        }
        if candidates[i].class == class {
            r.push(candidates[i]);
        }
        i += 1;
    }
    proof {
        assert(candidates@.take(candidates@.len() as int) == candidates@);
    }
    r
}

proof fn lemma_insert_by_score_at(s: Seq<Candidate>, c: Candidate, j: int)
    requires
        0 <= j <= s.len(),
        forall|k: int| j <= k < s.len() ==> s[k].score < c.score,
        j > 0 ==> s[j - 1].score >= c.score,
    ensures
        insert_by_score(s, c) == s.insert(j, c),
    decreases s.len(),
{
    if s.len() == 0 {
        assert(s.insert(j, c) =~= seq![c]);
    } else if s.last().score >= c.score {
        assert(j == s.len());
        assert(s.insert(j, c) =~= s.push(c));
    } else {
        lemma_insert_by_score_at(s.drop_last(), c, j);
        assert(s.insert(j, c) =~= s.drop_last().insert(j, c).push(s.last()));
    }
}

fn sort_by_score_exec(v: Vec<Candidate>) -> (r: Vec<Candidate>)
    ensures
        r@ == sort_by_score(v@),
{
    let mut r: Vec<Candidate> = Vec::new();
    let mut i: usize = 0;
    while i < v.len()
        invariant
            i <= v@.len(),
            r@ == sort_by_score(v@.take(i as int)),
        decreases v.len() - i,
    {
        let c = v[i];
        let mut j = r.len();
        while j > 0 && r[j - 1].score < c.score
            invariant
                j <= r@.len(),
                forall|k: int| j <= k < r@.len() ==> r@[k].score < c.score,
            decreases j,
        {
            j -= 1;
        }
        proof {
            lemma_insert_by_score_at(r@, c, j as int);
            assert(v@.take(i + 1).drop_last() == v@.take(i as int));
        }
        r.insert(j, c);
        i += 1;
    }
    proof {
        assert(v@.take(v@.len() as int) == v@);
    }
    r
}

fn first_match_exec(clusters: &Vec<Cluster>, b: BBox, config: &FusionConfig) -> (r: Option<usize>)
    ensures
        r matches Some(k) ==> first_match(clusters_view(clusters@), b, *config) == Some(k as int),
        r is None ==> first_match(clusters_view(clusters@), b, *config) is None,
{
    let ghost s = clusters_view(clusters@);
    let mut r: Option<usize> = None;
    let mut k: usize = 0;
    while k < clusters.len()
        invariant
            k <= clusters@.len(),
            s == clusters_view(clusters@),
            r matches Some(j) ==> first_match(s.take(k as int), b, *config) == Some(j as int),
            r is None ==> first_match(s.take(k as int), b, *config) is None,
        decreases clusters.len() - k,
    {
        proof {
            assert(s.take(k + 1).drop_last() == s.take(k as int));
        }
        if r.is_none() && overlaps(clusters[k].bbox, b, config) {
            r = Some(k);
        }
        k += 1;
    }
    proof {
        assert(s.take(clusters@.len() as int) == s);
    }
    r
}

fn contains_detector(v: &Vec<Detector>, d: Detector) -> (r: bool)
    ensures
        r == v@.contains(d),
{
    let mut i: usize = 0;
    while i < v.len()
        invariant
            i <= v@.len(),
            forall|k: int| 0 <= k < i ==> v@[k] != d,
        decreases v.len() - i,
    {
        if v[i] == d {
            return true;
        }
        i += 1;
    }
    false
}

fn copy_detectors(v: &Vec<Detector>) -> (r: Vec<Detector>)
    ensures
        r@ == v@,
{
    let mut r: Vec<Detector> = Vec::new();
    let mut i: usize = 0;
    while i < v.len()
        invariant
            i <= v@.len(),
            r@ == v@.take(i as int),
        decreases v.len() - i,
    {
        r.push(v[i]);
        i += 1;
    }
    proof {
        assert(v@.take(v@.len() as int) == v@);
    }
    r
}

impl Cluster {
    fn absorb_exec(&mut self, c: &Candidate)
        ensures
            final(self)@ == absorb(old(self)@, *c),
    {
        if !contains_detector(&self.detectors, c.detector) {
            self.detectors.push(c.detector);
        }
        if c.has_mask {
            let best = match self.masked_score {
                Some(s) => if s >= c.score {
                    s
                } else {
                    c.score
                },
                None => c.score,
            };
            self.masked_score = Some(best);
        }
        if self.mask_fill.is_none() {
            self.mask_fill = c.mask_fill;
        }
    }
}

/// Group same-class candidates that describe one object. Cross-class nesting
/// is deliberately left alone: a text box inside a balloon box is two real
/// objects. The highest-scoring box of a cluster gives its geometry.
pub fn cluster(candidates: &[Candidate], class: Class, config: &FusionConfig) -> (r: Vec<Cluster>)
    ensures
        clusters_view(r@) == cluster_spec(candidates@, class, *config),
{
    let sorted = sort_by_score_exec(of_class_exec(candidates, class));
    let mut clusters: Vec<Cluster> = Vec::new();
    let mut i: usize = 0;
    while i < sorted.len()
        invariant
            i <= sorted@.len(),
            clusters_view(clusters@) == cluster_fold(sorted@.take(i as int), *config),
        decreases sorted.len() - i,
    {
        let candidate = sorted[i];
        let ghost prev = clusters_view(clusters@);
        proof {
            assert(sorted@.take(i + 1).drop_last() == sorted@.take(i as int));
            assert(sorted@.take(i + 1).last() == candidate);
            lemma_first_match(prev, candidate.bbox, *config);
            let t = sorted@.take(i + 1);
            assert(cluster_fold(t, *config) == match first_match(prev, candidate.bbox, *config) {
                Some(k) => prev.update(k, absorb(prev[k], candidate)),
                None => prev.push(new_cluster(candidate)),
            });
        }
        match first_match_exec(&clusters, candidate.bbox, config) {
            Some(k) => {
                let mut cl = clusters.remove(k);
                cl.absorb_exec(&candidate);
                clusters.insert(k, cl);
                proof {
                    assert(clusters_view(clusters@) =~= prev.update(k as int, absorb(prev[k as int], candidate)));
                    assert(clusters_view(clusters@) == cluster_fold(sorted@.take(i + 1), *config));
                }
            },
            None => {
                let mut detectors: Vec<Detector> = Vec::new();
                detectors.push(candidate.detector);
                let masked_score = if candidate.has_mask {
                    Some(candidate.score)
                } else {
                    None
                };
                clusters.push(
                    Cluster {
                        bbox: candidate.bbox,
                        score: candidate.score,
                        detectors,
                        masked_score,
                        mask_fill: candidate.mask_fill,
                    },
                );
                proof {
                    assert(clusters_view(clusters@) =~= prev.push(new_cluster(candidate)));
                    assert(clusters_view(clusters@) == cluster_fold(sorted@.take(i + 1), *config));
                }
            },
        }
        assert(clusters_view(clusters@) == cluster_fold(sorted@.take(i + 1), *config));
        i += 1;
    }
    proof {
        assert(sorted@.take(sorted@.len() as int) == sorted@);
    }
    clusters
}


// ---------------------------------------------------------------------------
// Fusion
// ---------------------------------------------------------------------------

pub struct FusedBubbleView {
    pub bbox: BBox,
    pub score: u32,
    pub detectors: Seq<Detector>,
    pub accepted: bool,
}

impl View for FusedBubble {
    type V = FusedBubbleView;

    open spec fn view(&self) -> FusedBubbleView {
        FusedBubbleView {
            bbox: self.bbox,
            score: self.score,
            detectors: self.detectors@,
            accepted: self.accepted,
        }
    }
}

pub struct FusedRegionView {
    pub bbox: BBox,
    pub role: Role,
    pub score: u32,
    pub detectors: Seq<Detector>,
    pub accepted: bool,
    pub bubble: Option<int>,
    pub mask_fill: Option<MaskFill>,
}

impl View for FusedRegion {
    type V = FusedRegionView;

    open spec fn view(&self) -> FusedRegionView {
        FusedRegionView {
            bbox: self.bbox,
            role: self.role,
            score: self.score,
            detectors: self.detectors@,
            accepted: self.accepted,
            bubble: match self.bubble {
                Some(i) => Some(i as int),
                None => None,
            },
            mask_fill: self.mask_fill,
        }
    }
}

pub struct FusionView {
    pub bubbles: Seq<FusedBubbleView>,
    pub regions: Seq<FusedRegionView>,
}

pub open spec fn bubbles_view(v: Seq<FusedBubble>) -> Seq<FusedBubbleView> {
    v.map_values(|b: FusedBubble| b@)
}

pub open spec fn regions_view(v: Seq<FusedRegion>) -> Seq<FusedRegionView> {
    v.map_values(|r: FusedRegion| r@)
}

impl View for Fusion {
    type V = FusionView;

    open spec fn view(&self) -> FusionView {
        FusionView { bubbles: bubbles_view(self.bubbles@), regions: regions_view(self.regions@) }
    }
}

/// A balloon is accepted when two distinct detectors agree on it, or when the
/// layout model's own mask backs it at `strong_mask_score` or more.
pub open spec fn bubble_accepted(cl: ClusterView, c: FusionConfig) -> bool {
    ||| cl.detectors.len() >= 2
    ||| (cl.masked_score matches Some(s) && s >= c.strong_mask_score)
}

pub open spec fn bubble_of(cl: ClusterView, c: FusionConfig) -> FusedBubbleView {
    FusedBubbleView {
        bbox: cl.bbox,
        score: cl.score,
        detectors: cl.detectors,
        accepted: bubble_accepted(cl, c),
    }
}

/// The fused balloons of a page.
pub open spec fn bubbles_spec(cands: Seq<Candidate>, c: FusionConfig) -> Seq<FusedBubbleView> {
    cluster_spec(cands, Class::Bubble, c).map_values(|cl: ClusterView| bubble_of(cl, c))
}

/// `b` sits inside balloon `i` by at least `dialogue_ioa` of its own area.
pub open spec fn inside_bubble(bubbles: Seq<FusedBubbleView>, i: int, b: BBox, c: FusionConfig) -> bool {
    ioa_reaches(b, bubbles[i].bbox, c.dialogue_ioa as int)
}

/// Among the first `n` balloons that contain `b`, the last accepted one, or
/// failing that the last one.
pub open spec fn pick_bubble(bubbles: Seq<FusedBubbleView>, b: BBox, c: FusionConfig, n: int) -> Option<int>
    decreases n,
{
    if n <= 0 {
        None
    } else {
        let prev = pick_bubble(bubbles, b, c, n - 1);
        if inside_bubble(bubbles, n - 1, b, c) {
            match prev {
                Some(p) => if bubbles[p].accepted && !bubbles[n - 1].accepted {
                    Some(p)
                } else {
                    Some(n - 1)
                },
                None => Some(n - 1),
            }
        } else {
            prev
        }
    }
}

/// Another detector than the layout model proposed a text box matching `b`.
pub open spec fn confirming_text(cands: Seq<Candidate>, b: BBox, c: FusionConfig) -> bool {
    exists|i: int|
        0 <= i < cands.len() && #[trigger] cands[i].class == Class::Text && cands[i].detector
            != Detector::Layout && overlaps_spec(b, cands[i].bbox, c)
}

/// The text mask covers at least `mask_coverage` of `b`.
pub open spec fn pixel_evidence<M: CoverageSource>(mask: M, b: BBox, c: FusionConfig) -> bool {
    ratio_meets(mask.coverage_spec(b), c.mask_coverage as int)
}

/// The cluster carries the layout model's instance mask as evidence: some
/// merged candidate was masked, and where the mask was decoded it lit at
/// least `sfx_mask_fill` of its box.
pub open spec fn mask_evidence(cl: ClusterView, c: FusionConfig) -> bool {
    &&& cl.masked_score is Some
    &&& (cl.mask_fill matches Some(f) ==> fill_meets(f, c.sfx_mask_fill as int))
}

/// How one text or SFX cluster is routed and whether it may be erased.
pub open spec fn region_of<M: CoverageSource>(
    cl: ClusterView,
    class: Class,
    bubbles: Seq<FusedBubbleView>,
    cands: Seq<Candidate>,
    c: FusionConfig,
    mask: M,
) -> FusedRegionView {
    let pixels = pixel_evidence(mask, cl.bbox, c);
    let (role, bubble, accepted) = match pick_bubble(bubbles, cl.bbox, c, bubbles.len() as int) {
        Some(i) => (Role::Dialogue, Some(i), bubbles[i].accepted),
        None => if class == Class::Sfx {
            (Role::Sfx, None, mask_evidence(cl, c) && (pixels || confirming_text(cands, cl.bbox, c)))
        } else {
            (Role::Outside, None, cl.detectors.len() >= 2 || pixels)
        },
    };
    FusedRegionView {
        bbox: cl.bbox,
        role,
        score: cl.score,
        detectors: cl.detectors,
        accepted,
        bubble,
        mask_fill: cl.mask_fill,
    }
}

/// The fused regions of one class.
pub open spec fn regions_of<M: CoverageSource>(
    cands: Seq<Candidate>,
    class: Class,
    c: FusionConfig,
    mask: M,
) -> Seq<FusedRegionView> {
    cluster_spec(cands, class, c).map_values(
        |cl: ClusterView| region_of(cl, class, bubbles_spec(cands, c), cands, c, mask),
    )
}

/// What `fuse` returns: the balloons, then the text regions, then the SFX
/// regions.
pub open spec fn fusion_spec<M: CoverageSource>(cands: Seq<Candidate>, c: FusionConfig, mask: M) -> FusionView {
    FusionView {
        bubbles: bubbles_spec(cands, c),
        regions: regions_of(cands, Class::Text, c, mask) + regions_of(cands, Class::Sfx, c, mask),
    }
}

fn confirming_text_exec(candidates: &[Candidate], b: BBox, config: &FusionConfig) -> (r: bool)
    ensures
        r == confirming_text(candidates@, b, *config),
{
    let mut i: usize = 0;
    while i < candidates.len()
        invariant
            i <= candidates@.len(),
            forall|k: int|
                0 <= k < i ==> !(#[trigger] candidates@[k].class == Class::Text && candidates@[k].detector
                    != Detector::Layout && overlaps_spec(b, candidates@[k].bbox, *config)),
        decreases candidates.len() - i,
    {
        let c = candidates[i];
        if c.class == Class::Text && c.detector != Detector::Layout && overlaps(b, c.bbox, config) {
            return true;
        }
        i += 1;
    }
    false
}

fn pick_bubble_exec(bubbles: &Vec<FusedBubble>, b: BBox, config: &FusionConfig) -> (r: Option<usize>)
    ensures
        r matches Some(k) ==> pick_bubble(bubbles_view(bubbles@), b, *config, bubbles@.len() as int)
            == Some(k as int),
        r is None ==> pick_bubble(bubbles_view(bubbles@), b, *config, bubbles@.len() as int) is None,
        r matches Some(k) ==> k < bubbles@.len(),
{
    let ghost s = bubbles_view(bubbles@);
    let mut best: Option<usize> = None;
    let mut i: usize = 0;
    while i < bubbles.len()
        invariant
            i <= bubbles@.len(),
            s == bubbles_view(bubbles@),
            best matches Some(k) ==> pick_bubble(s, b, *config, i as int) == Some(k as int) && k < i,
            best is None ==> pick_bubble(s, b, *config, i as int) is None,
        decreases bubbles.len() - i,
    {
        if ioa_at_least(b, bubbles[i].bbox, config.dialogue_ioa) {
            best = match best {
                Some(p) => if bubbles[p].accepted && !bubbles[i].accepted {
                    Some(p)
                } else {
                    Some(i)
                },
                None => Some(i),
            };
        }
        i += 1;
    }
    best
}

fn bubble_from(cl: &Cluster, config: &FusionConfig) -> (r: FusedBubble)
    ensures
        r@ == bubble_of(cl@, *config),
{
    let strong = match cl.masked_score {
        Some(s) => s >= config.strong_mask_score,
        None => false,
    };
    FusedBubble {
        bbox: cl.bbox,
        score: cl.score,
        detectors: copy_detectors(&cl.detectors),
        accepted: cl.detectors.len() >= 2 || strong,
    }
}

fn fuse_class<M: CoverageSource>(
    candidates: &[Candidate],
    class: Class,
    config: &FusionConfig,
    mask: &M,
    bubbles: &Vec<FusedBubble>,
    regions: &mut Vec<FusedRegion>,
)
    requires
        bubbles_view(bubbles@) == bubbles_spec(candidates@, *config),
        class != Class::Bubble,
    ensures
        regions_view(final(regions)@) == regions_view(old(regions)@) + regions_of(
            candidates@,
            class,
            *config,
            *mask,
        ),
{
    let clusters = cluster(candidates, class, config);
    let ghost cls = clusters_view(clusters@);
    let ghost start = regions_view(regions@);
    assert(start.len() == regions@.len());
    let ghost bs = bubbles_view(bubbles@);
    let ghost target = regions_of(candidates@, class, *config, *mask);
    let mut i: usize = 0;
    while i < clusters.len()
        invariant
            i <= clusters@.len(),
            cls == clusters_view(clusters@),
            cls == cluster_spec(candidates@, class, *config),
            bs == bubbles_view(bubbles@),
            bs == bubbles_spec(candidates@, *config),
            target == regions_of(candidates@, class, *config, *mask),
            target.len() == cls.len(),
            regions_view(regions@) == start + target.take(i as int),
            regions@.len() == start.len() + i,
        decreases clusters.len() - i,
    {
        let cl = &clusters[i];
        let pixels = {
            let cov = mask.coverage(cl.bbox);
            cov.reaches(config.mask_coverage)
        };
        let (role, bubble, accepted) = match pick_bubble_exec(bubbles, cl.bbox, config) {
            Some(k) => (Role::Dialogue, Some(k), bubbles[k].accepted),
            None => if class == Class::Sfx {
                let glyphs = pixels || confirming_text_exec(candidates, cl.bbox, config);
                let traced = match cl.mask_fill {
                    Some(f) => f.reaches(config.sfx_mask_fill),
                    None => true,
                };
                (Role::Sfx, None, cl.masked_score.is_some() && traced && glyphs)
            } else {
                (Role::Outside, None, cl.detectors.len() >= 2 || pixels)
            },
        };
        let region = FusedRegion {
            bbox: cl.bbox,
            role,
            score: cl.score,
            detectors: copy_detectors(&cl.detectors),
            accepted,
            bubble,
            mask_fill: cl.mask_fill,
        };
        proof {
            assert(cls[i as int] == cl@);
            assert(target[i as int] == region_of(cl@, class, bs, candidates@, *config, *mask));
            match bubble {
                Some(k) => {
                    assert(bs[k as int] == bubbles@[k as int]@);
                },
                None => {},
            }
            assert(region@ == target[i as int]);
        }
        let ghost before = regions@;
        regions.push(region);
        proof {
            assert forall|j: int| 0 <= j < regions@.len() implies #[trigger] regions_view(regions@)[j] == (start + target.take(i + 1))[j] by {
                if j < before.len() {
                    assert(regions@[j] == before[j]);
                    assert(regions_view(before)[j] == before[j]@);
                }
            }
            assert(regions_view(regions@) =~= start + target.take(i + 1));
        }
        i += 1;
    }
    proof {
        assert(target.take(clusters@.len() as int) == target);
    }
}

/// Fuse detector proposals into balloons and text regions.
///
/// `mask_coverage` gives the fraction of a box covered by the authoritative
/// text mask ([`UniformCoverage::none`] when no mask is available). It is the
/// only pixel evidence fusion consults.
pub fn fuse<M: CoverageSource>(candidates: &[Candidate], config: &FusionConfig, mask_coverage: &M) -> (f: Fusion)
    ensures
        f@ == fusion_spec(candidates@, *config, *mask_coverage),
{
    let clusters = cluster(candidates, Class::Bubble, config);
    let ghost cls = clusters_view(clusters@);
    let ghost target = bubbles_spec(candidates@, *config);
    let mut bubbles: Vec<FusedBubble> = Vec::new();
    let mut i: usize = 0;
    while i < clusters.len()
        invariant
            i <= clusters@.len(),
            cls == clusters_view(clusters@),
            cls == cluster_spec(candidates@, Class::Bubble, *config),
            target == bubbles_spec(candidates@, *config),
            target.len() == cls.len(),
            bubbles_view(bubbles@) == target.take(i as int),
            bubbles@.len() == i,
        decreases clusters.len() - i,
    {
        let b = bubble_from(&clusters[i], config);
        proof {
            assert(cls[i as int] == clusters@[i as int]@);
            assert(target[i as int] == bubble_of(cls[i as int], *config));
        }
        let ghost before = bubbles@;
        bubbles.push(b);
        proof {
            assert forall|j: int| 0 <= j < i + 1 implies #[trigger] bubbles_view(bubbles@)[j] == target.take(i + 1)[j] by {
                if j < i {
                    assert(bubbles@[j] == before[j]);
                    assert(bubbles_view(before)[j] == before[j]@);
                }
            }
            assert(bubbles_view(bubbles@) =~= target.take(i + 1));
        }
        i += 1;
    }
    proof {
        assert(target.take(clusters@.len() as int) == target);
    }
    let mut regions: Vec<FusedRegion> = Vec::new();
    proof {
        assert(regions_view(regions@) =~= Seq::<FusedRegionView>::empty());
    }
    fuse_class(candidates, Class::Text, config, mask_coverage, &bubbles, &mut regions);
    fuse_class(candidates, Class::Sfx, config, mask_coverage, &bubbles, &mut regions);
    proof {
        assert(regions_view(regions@) =~= regions_of(candidates@, Class::Text, *config, *mask_coverage)
            + regions_of(candidates@, Class::Sfx, *config, *mask_coverage));
    }
    Fusion { bubbles, regions }
}

} // verus!
