//! Properties of clustering and fusion that hold on every input.
use vstd::prelude::*;
use crate::geometry::{BBox, ioa_reaches};
use crate::fusion::{
    Candidate, Class, ClusterView, Detector, FusedBubbleView, FusedRegionView, FusionConfig, Role,
    CoverageSource, absorb, bubble_accepted, bubble_of, bubbles_spec, cluster_fold, cluster_spec,
    confirming_text, fill_meets, first_match, fusion_spec, inside_bubble, insert_by_score, lemma_first_match,
    new_cluster, of_class, overlaps_spec, pick_bubble, pixel_evidence, region_of, regions_of,
    sort_by_score,
};

verus! {

/// Scores never increase along `s`.
pub open spec fn sorted_by_score(s: Seq<Candidate>) -> bool {
    forall|i: int, j: int| 0 <= i < j < s.len() ==> #[trigger] s[i].score >= #[trigger] s[j].score
}

proof fn lemma_insert_by_score(s: Seq<Candidate>, c: Candidate)
    ensures
        insert_by_score(s, c).len() == s.len() + 1,
        forall|y: Candidate| #[trigger] insert_by_score(s, c).contains(y) <==> (s.contains(y) || y == c),
        sorted_by_score(s) ==> sorted_by_score(insert_by_score(s, c)),
    decreases s.len(),
{
    if s.len() == 0 {
        assert(insert_by_score(s, c) =~= seq![c]);
        assert forall|y: Candidate| #[trigger] insert_by_score(s, c).contains(y) <==> (s.contains(y) || y == c) by {
            if insert_by_score(s, c).contains(y) {
                assert(insert_by_score(s, c)[0] == c);
            }
            if y == c {
                assert(insert_by_score(s, c)[0] == y);
            }
        }
    } else if s.last().score >= c.score {
        let r = s.push(c);
        assert forall|y: Candidate| #[trigger] r.contains(y) <==> (s.contains(y) || y == c) by {
            if r.contains(y) {
                let k = choose|k: int| 0 <= k < r.len() && r[k] == y;
                if k < s.len() {
                    assert(s[k] == y);
                }
            }
            if s.contains(y) {
                let k = choose|k: int| 0 <= k < s.len() && s[k] == y;
                assert(r[k] == y);
            }
            if y == c {
                assert(r[s.len() as int] == y);
            }
        }
        if sorted_by_score(s) {
            assert forall|i: int, j: int| 0 <= i < j < r.len() implies #[trigger] r[i].score >= #[trigger] r[j].score by {
                if j == s.len() {
                    assert(s[i].score >= s[s.len() - 1].score);
                } else {
                    assert(s[i].score >= s[j].score);
                }
            }
        }
    } else {
        let d = s.drop_last();
        let inner = insert_by_score(d, c);
        lemma_insert_by_score(d, c);
        let r = inner.push(s.last());
        assert(r == insert_by_score(s, c));
        assert forall|y: Candidate| #[trigger] r.contains(y) <==> (s.contains(y) || y == c) by {
            if r.contains(y) {
                let k = choose|k: int| 0 <= k < r.len() && r[k] == y;
                if k < inner.len() {
                    assert(inner[k] == y);
                    assert(inner.contains(y));
                    if d.contains(y) {
                        let m = choose|m: int| 0 <= m < d.len() && d[m] == y;
                        assert(s[m] == y);
                    }
                } else {
                    assert(s[s.len() - 1] == y);
                }
            }
            if s.contains(y) {
                let k = choose|k: int| 0 <= k < s.len() && s[k] == y;
                if k < d.len() {
                    assert(d[k] == y);
                    assert(d.contains(y));
                    assert(inner.contains(y));
                    let m = choose|m: int| 0 <= m < inner.len() && inner[m] == y;
                    assert(r[m] == y);
                } else {
                    assert(r[inner.len() as int] == y);
                }
            }
            if y == c {
                assert(inner.contains(y));
                let m = choose|m: int| 0 <= m < inner.len() && inner[m] == y;
                assert(r[m] == y);
            }
        }
        if sorted_by_score(s) {
            assert(sorted_by_score(d));
            assert forall|i: int, j: int| 0 <= i < j < r.len() implies #[trigger] r[i].score >= #[trigger] r[j].score by {
                if j == inner.len() {
                    let x = inner[i];
                    assert(inner.contains(x));
                    if x != c {
                        assert(d.contains(x));
                        let m = choose|m: int| 0 <= m < d.len() && d[m] == x;
                        assert(s[m].score >= s[s.len() - 1].score);
                    }
                }
            }
        }
    }
}

/// Sorting keeps exactly the same candidates and orders them by descending
/// score.
pub proof fn lemma_sort_by_score(s: Seq<Candidate>)
    ensures
        sort_by_score(s).len() == s.len(),
        forall|y: Candidate| #[trigger] sort_by_score(s).contains(y) <==> s.contains(y),
        sorted_by_score(sort_by_score(s)),
    decreases s.len(),
{
    if s.len() > 0 {
        let d = s.drop_last();
        lemma_sort_by_score(d);
        lemma_insert_by_score(sort_by_score(d), s.last());
        assert forall|y: Candidate| #[trigger] sort_by_score(s).contains(y) <==> s.contains(y) by {
            if d.contains(y) {
                let m = choose|m: int| 0 <= m < d.len() && d[m] == y;
                assert(s[m] == y);
            }
            if s.contains(y) {
                let m = choose|m: int| 0 <= m < s.len() && s[m] == y;
                if m < d.len() {
                    assert(d[m] == y);
                } else {
                    assert(y == s.last());
                }
            }
        }
    }
}

/// Every candidate of the class is kept by `of_class`, and nothing else is.
pub proof fn lemma_of_class(s: Seq<Candidate>, class: Class)
    ensures
        forall|y: Candidate| #[trigger] of_class(s, class).contains(y) <==> (s.contains(y) && y.class == class),
    decreases s.len(),
{
    if s.len() > 0 {
        let d = s.drop_last();
        lemma_of_class(d, class);
        let rest = of_class(d, class);
        assert forall|y: Candidate| #[trigger] of_class(s, class).contains(y) <==> (s.contains(y) && y.class == class) by {
            let r = of_class(s, class);
            if r.contains(y) {
                let k = choose|k: int| 0 <= k < r.len() && r[k] == y;
                if k < rest.len() {
                    assert(rest[k] == y);
                    assert(rest.contains(y));
                    let m = choose|m: int| 0 <= m < d.len() && d[m] == y;
                    assert(s[m] == y);
                } else {
                    assert(y == s.last());
                    assert(s[s.len() - 1] == y);
                }
            }
            if s.contains(y) && y.class == class {
                let m = choose|m: int| 0 <= m < s.len() && s[m] == y;
                if m < d.len() {
                    assert(d[m] == y);
                    assert(rest.contains(y));
                    let k = choose|k: int| 0 <= k < rest.len() && rest[k] == y;
                    assert(r[k] == y);
                } else {
                    assert(r[r.len() - 1] == y);
                }
            }
        }
    }
}

/// `x` was merged into a cluster with representative box `b`: it is that box,
/// or it matches it.
pub open spec fn joined(b: BBox, x: Candidate, c: FusionConfig) -> bool {
    x.bbox == b || overlaps_spec(b, x.bbox, c)
}

/// The cluster's geometry and score are those of one of the candidates.
pub open spec fn founded_by(s: Seq<Candidate>, cl: ClusterView) -> bool {
    exists|j: int| 0 <= j < s.len() && #[trigger] s[j].bbox == cl.bbox && s[j].score == cl.score
}

/// A masked score comes from a masked candidate merged into the cluster.
pub open spec fn mask_backed(s: Seq<Candidate>, cl: ClusterView, c: FusionConfig) -> bool {
    cl.masked_score matches Some(v) ==> exists|j: int|
        0 <= j < s.len() && #[trigger] s[j].has_mask && s[j].score == v && joined(cl.bbox, s[j], c)
}

/// Every vote a cluster counts was cast by a candidate merged into it.
pub open spec fn votes_backed(s: Seq<Candidate>, cl: ClusterView, c: FusionConfig) -> bool {
    forall|t: int|
        0 <= t < cl.detectors.len() ==> exists|j: int|
            0 <= j < s.len() && #[trigger] s[j].detector == #[trigger] cl.detectors[t] && joined(cl.bbox, s[j], c)
}

/// Some cluster took `x` in, scores at least as much, and counts its vote.
pub open spec fn represented(cls: Seq<ClusterView>, x: Candidate, c: FusionConfig) -> bool {
    exists|k: int|
        0 <= k < cls.len() && joined(#[trigger] cls[k].bbox, x, c) && cls[k].score >= x.score
            && cls[k].detectors.contains(x.detector)
}

/// Each cluster counts each detector once.
#[verifier::opaque]
pub open spec fn inv_distinct_votes(s: Seq<Candidate>, cls: Seq<ClusterView>, c: FusionConfig) -> bool {
    forall|k: int| 0 <= k < cls.len() ==> (#[trigger] cls[k]).detectors.no_duplicates()
}

/// Each cluster has at least one vote.
#[verifier::opaque]
pub open spec fn inv_has_vote(s: Seq<Candidate>, cls: Seq<ClusterView>, c: FusionConfig) -> bool {
    forall|k: int| 0 <= k < cls.len() ==> (#[trigger] cls[k]).detectors.len() >= 1
}

/// Each cluster's box and score are one of its candidates'.
#[verifier::opaque]
pub open spec fn inv_founded(s: Seq<Candidate>, cls: Seq<ClusterView>, c: FusionConfig) -> bool {
    forall|k: int| 0 <= k < cls.len() ==> founded_by(s, #[trigger] cls[k])
}

/// Masked scores come from masked candidates.
#[verifier::opaque]
pub open spec fn inv_mask_backed(s: Seq<Candidate>, cls: Seq<ClusterView>, c: FusionConfig) -> bool {
    forall|k: int| 0 <= k < cls.len() ==> mask_backed(s, #[trigger] cls[k], c)
}

/// Votes come from merged candidates.
#[verifier::opaque]
pub open spec fn inv_votes_backed(s: Seq<Candidate>, cls: Seq<ClusterView>, c: FusionConfig) -> bool {
    forall|k: int| 0 <= k < cls.len() ==> votes_backed(s, #[trigger] cls[k], c)
}

/// Every candidate is represented by a cluster.
#[verifier::opaque]
pub open spec fn inv_represented(s: Seq<Candidate>, cls: Seq<ClusterView>, c: FusionConfig) -> bool {
    forall|m: int| 0 <= m < s.len() ==> represented(cls, #[trigger] s[m], c)
}

/// Cluster representatives never match one another.
#[verifier::opaque]
pub open spec fn inv_apart(s: Seq<Candidate>, cls: Seq<ClusterView>, c: FusionConfig) -> bool {
    forall|i: int, j: int| 0 <= i < j < cls.len() ==> !overlaps_spec(#[trigger] cls[i].bbox, #[trigger] cls[j].bbox, c)
}

pub open spec fn fold_invariant(s: Seq<Candidate>, cls: Seq<ClusterView>, c: FusionConfig) -> bool {
    &&& inv_distinct_votes(s, cls, c)
    &&& inv_has_vote(s, cls, c)
    &&& inv_founded(s, cls, c)
    &&& inv_mask_backed(s, cls, c)
    &&& inv_votes_backed(s, cls, c)
    &&& inv_represented(s, cls, c)
    &&& inv_apart(s, cls, c)
}

proof fn lemma_fold_new_0(s: Seq<Candidate>, c: FusionConfig)
    requires
        s.len() > 0,
        sorted_by_score(s),
        fold_invariant(s.drop_last(), cluster_fold(s.drop_last(), c), c),
        first_match(cluster_fold(s.drop_last(), c), s.last().bbox, c) is None,
    ensures
        inv_distinct_votes(s, cluster_fold(s, c), c),
{
    reveal(inv_distinct_votes);
    let d = s.drop_last();
    let x = s.last();
    let prev = cluster_fold(d, c);
    let cls = cluster_fold(s, c);
    lemma_first_match(prev, x.bbox, c);
    assert forall|j: int| 0 <= j < d.len() implies #[trigger] d[j] == s[j] by {}
        assert(cls == prev.push(new_cluster(x)));
        let n = prev.len() as int;
        assert forall|k: int| 0 <= k < cls.len() implies (#[trigger] cls[k]).detectors.no_duplicates() by {
            if k == n {
                assert(cls[k].detectors =~= seq![x.detector]);
            } else {
                assert(cls[k] == prev[k]);
            }
        }
}

proof fn lemma_fold_new_1(s: Seq<Candidate>, c: FusionConfig)
    requires
        s.len() > 0,
        sorted_by_score(s),
        fold_invariant(s.drop_last(), cluster_fold(s.drop_last(), c), c),
        first_match(cluster_fold(s.drop_last(), c), s.last().bbox, c) is None,
    ensures
        inv_has_vote(s, cluster_fold(s, c), c),
{
    reveal(inv_has_vote);
    let d = s.drop_last();
    let x = s.last();
    let prev = cluster_fold(d, c);
    let cls = cluster_fold(s, c);
    lemma_first_match(prev, x.bbox, c);
    assert forall|j: int| 0 <= j < d.len() implies #[trigger] d[j] == s[j] by {}
        assert(cls == prev.push(new_cluster(x)));
        let n = prev.len() as int;
        assert forall|k: int| 0 <= k < cls.len() implies (#[trigger] cls[k]).detectors.len() >= 1 by {
            if k < n {
                assert(cls[k] == prev[k]);
            }
        }
}

proof fn lemma_fold_new_2(s: Seq<Candidate>, c: FusionConfig)
    requires
        s.len() > 0,
        sorted_by_score(s),
        fold_invariant(s.drop_last(), cluster_fold(s.drop_last(), c), c),
        first_match(cluster_fold(s.drop_last(), c), s.last().bbox, c) is None,
    ensures
        inv_founded(s, cluster_fold(s, c), c),
{
    reveal(inv_founded);
    let d = s.drop_last();
    let x = s.last();
    let prev = cluster_fold(d, c);
    let cls = cluster_fold(s, c);
    lemma_first_match(prev, x.bbox, c);
    assert forall|j: int| 0 <= j < d.len() implies #[trigger] d[j] == s[j] by {}
        assert(cls == prev.push(new_cluster(x)));
        let n = prev.len() as int;
        assert forall|k: int| 0 <= k < cls.len() implies founded_by(s, #[trigger] cls[k]) by {
            if k == n {
                assert(s[s.len() - 1].bbox == cls[k].bbox);
            } else {
                assert(cls[k] == prev[k]);
                assert(founded_by(d, prev[k]));
                let j = choose|j: int| 0 <= j < d.len() && #[trigger] d[j].bbox == prev[k].bbox && d[j].score == prev[k].score;
                assert(s[j] == d[j]);
            }
        }
}

proof fn lemma_fold_new_3(s: Seq<Candidate>, c: FusionConfig)
    requires
        s.len() > 0,
        sorted_by_score(s),
        fold_invariant(s.drop_last(), cluster_fold(s.drop_last(), c), c),
        first_match(cluster_fold(s.drop_last(), c), s.last().bbox, c) is None,
    ensures
        inv_mask_backed(s, cluster_fold(s, c), c),
{
    reveal(inv_mask_backed);
    let d = s.drop_last();
    let x = s.last();
    let prev = cluster_fold(d, c);
    let cls = cluster_fold(s, c);
    lemma_first_match(prev, x.bbox, c);
    assert forall|j: int| 0 <= j < d.len() implies #[trigger] d[j] == s[j] by {}
        assert(cls == prev.push(new_cluster(x)));
        let n = prev.len() as int;
        assert forall|k: int| 0 <= k < cls.len() implies mask_backed(s, #[trigger] cls[k], c) by {
            if k == n {
                if x.has_mask {
                    assert(s[s.len() - 1] == x);
                    assert(joined(cls[k].bbox, s[s.len() - 1], c));
                }
            } else {
                assert(cls[k] == prev[k]);
                assert(mask_backed(d, prev[k], c));
                if let Some(v) = prev[k].masked_score {
                    let j = choose|j: int| 0 <= j < d.len() && #[trigger] d[j].has_mask && d[j].score == v && joined(prev[k].bbox, d[j], c);
                    assert(s[j] == d[j]);
                }
            }
        }
}

proof fn lemma_fold_new_4(s: Seq<Candidate>, c: FusionConfig)
    requires
        s.len() > 0,
        sorted_by_score(s),
        fold_invariant(s.drop_last(), cluster_fold(s.drop_last(), c), c),
        first_match(cluster_fold(s.drop_last(), c), s.last().bbox, c) is None,
    ensures
        inv_votes_backed(s, cluster_fold(s, c), c),
{
    reveal(inv_votes_backed);
    let d = s.drop_last();
    let x = s.last();
    let prev = cluster_fold(d, c);
    let cls = cluster_fold(s, c);
    lemma_first_match(prev, x.bbox, c);
    assert forall|j: int| 0 <= j < d.len() implies #[trigger] d[j] == s[j] by {}
        assert(cls == prev.push(new_cluster(x)));
        let n = prev.len() as int;
        assert forall|k: int| 0 <= k < cls.len() implies votes_backed(s, #[trigger] cls[k], c) by {
            if k == n {
                assert forall|t: int| 0 <= t < cls[k].detectors.len() implies exists|j: int|
                    0 <= j < s.len() && #[trigger] s[j].detector == #[trigger] cls[k].detectors[t] && joined(cls[k].bbox, s[j], c) by {
                    assert(cls[k].detectors[t] == x.detector);
                    assert(s[s.len() - 1] == x);
                }
            } else {
                assert(cls[k] == prev[k]);
                assert(votes_backed(d, prev[k], c));
                assert forall|t: int| 0 <= t < cls[k].detectors.len() implies exists|j: int|
                    0 <= j < s.len() && #[trigger] s[j].detector == #[trigger] cls[k].detectors[t] && joined(cls[k].bbox, s[j], c) by {
                    let j = choose|j: int| 0 <= j < d.len() && #[trigger] d[j].detector == #[trigger] prev[k].detectors[t] && joined(prev[k].bbox, d[j], c);
                    assert(s[j] == d[j]);
                }
            }
        }
}

proof fn lemma_fold_new_5(s: Seq<Candidate>, c: FusionConfig)
    requires
        s.len() > 0,
        sorted_by_score(s),
        fold_invariant(s.drop_last(), cluster_fold(s.drop_last(), c), c),
        first_match(cluster_fold(s.drop_last(), c), s.last().bbox, c) is None,
    ensures
        inv_represented(s, cluster_fold(s, c), c),
{
    reveal(inv_represented);
    reveal(inv_founded);
    let d = s.drop_last();
    let x = s.last();
    let prev = cluster_fold(d, c);
    let cls = cluster_fold(s, c);
    lemma_first_match(prev, x.bbox, c);
    assert forall|j: int| 0 <= j < d.len() implies #[trigger] d[j] == s[j] by {}
        assert(cls == prev.push(new_cluster(x)));
        let n = prev.len() as int;
        assert forall|m: int| 0 <= m < s.len() implies represented(cls, #[trigger] s[m], c) by {
            if m == s.len() - 1 {
                assert(cls[n].detectors =~= seq![x.detector]);
                assert(cls[n].detectors[0] == x.detector);
                assert(joined(cls[n].bbox, x, c));
            } else {
                assert(s[m] == d[m]);
                assert(represented(prev, d[m], c));
                let k = choose|k: int| 0 <= k < prev.len() && joined(#[trigger] prev[k].bbox, d[m], c) && prev[k].score >= d[m].score && prev[k].detectors.contains(d[m].detector);
                assert(cls[k] == prev[k]);
            }
        }
}

proof fn lemma_fold_new_6(s: Seq<Candidate>, c: FusionConfig)
    requires
        s.len() > 0,
        sorted_by_score(s),
        fold_invariant(s.drop_last(), cluster_fold(s.drop_last(), c), c),
        first_match(cluster_fold(s.drop_last(), c), s.last().bbox, c) is None,
    ensures
        inv_apart(s, cluster_fold(s, c), c),
{
    reveal(inv_apart);
    let d = s.drop_last();
    let x = s.last();
    let prev = cluster_fold(d, c);
    let cls = cluster_fold(s, c);
    lemma_first_match(prev, x.bbox, c);
    assert forall|j: int| 0 <= j < d.len() implies #[trigger] d[j] == s[j] by {}
        assert(cls == prev.push(new_cluster(x)));
        let n = prev.len() as int;
        assert forall|i: int, j: int| 0 <= i < j < cls.len() implies !overlaps_spec(#[trigger] cls[i].bbox, #[trigger] cls[j].bbox, c) by {
            assert(cls[i] == prev[i]);
            if j < n {
                assert(cls[j] == prev[j]);
            }
        }
}

proof fn lemma_fold_step_new(s: Seq<Candidate>, c: FusionConfig)
    requires
        s.len() > 0,
        sorted_by_score(s),
        fold_invariant(s.drop_last(), cluster_fold(s.drop_last(), c), c),
        first_match(cluster_fold(s.drop_last(), c), s.last().bbox, c) is None,
    ensures
        fold_invariant(s, cluster_fold(s, c), c),
{
    lemma_fold_new_0(s, c);
    lemma_fold_new_1(s, c);
    lemma_fold_new_2(s, c);
    lemma_fold_new_3(s, c);
    lemma_fold_new_4(s, c);
    lemma_fold_new_5(s, c);
    lemma_fold_new_6(s, c);
}

#[verifier::rlimit(100)]
proof fn lemma_fold_absorb_0(s: Seq<Candidate>, c: FusionConfig, i: int)
    requires
        s.len() > 0,
        sorted_by_score(s),
        fold_invariant(s.drop_last(), cluster_fold(s.drop_last(), c), c),
        first_match(cluster_fold(s.drop_last(), c), s.last().bbox, c) == Some(i),
    ensures
        inv_distinct_votes(s, cluster_fold(s, c), c),
{
    reveal(inv_distinct_votes);
    reveal(inv_founded);
    let d = s.drop_last();
    let x = s.last();
    let prev = cluster_fold(d, c);
    let cls = cluster_fold(s, c);
    lemma_first_match(prev, x.bbox, c);
    assert forall|j: int| 0 <= j < d.len() implies #[trigger] d[j] == s[j] by {}
        let a = absorb(prev[i], x);
        assert(cls == prev.update(i, a));
        assert(founded_by(d, prev[i]));
        let fj = choose|j: int| 0 <= j < d.len() && #[trigger] d[j].bbox == prev[i].bbox && d[j].score == prev[i].score;
        assert(s[fj] == d[fj]);
        assert(prev[i].score >= x.score) by {
            assert(s[fj].score >= s[s.len() - 1].score);
        }
        assert forall|k: int| 0 <= k < cls.len() implies (#[trigger] cls[k]).detectors.no_duplicates() by {
            if k != i {
                assert(cls[k] == prev[k]);
            } else {
                assert(prev[i].detectors.no_duplicates());
                if !prev[i].detectors.contains(x.detector) {
                    let p = prev[i].detectors;
                    assert forall|u: int, v: int| 0 <= u < p.push(x.detector).len() && 0 <= v < p.push(x.detector).len() && u != v implies p.push(x.detector)[u] != p.push(x.detector)[v] by {
                        if u < p.len() && v < p.len() {
                        } else if u < p.len() {
                            assert(p.contains(p[u]));
                        } else if v < p.len() {
                            assert(p.contains(p[v]));
                        }
                    }
                }
            }
        }
}

#[verifier::rlimit(100)]
proof fn lemma_fold_absorb_1(s: Seq<Candidate>, c: FusionConfig, i: int)
    requires
        s.len() > 0,
        sorted_by_score(s),
        fold_invariant(s.drop_last(), cluster_fold(s.drop_last(), c), c),
        first_match(cluster_fold(s.drop_last(), c), s.last().bbox, c) == Some(i),
    ensures
        inv_has_vote(s, cluster_fold(s, c), c),
{
    reveal(inv_founded);
    reveal(inv_has_vote);
    let d = s.drop_last();
    let x = s.last();
    let prev = cluster_fold(d, c);
    let cls = cluster_fold(s, c);
    lemma_first_match(prev, x.bbox, c);
    assert forall|j: int| 0 <= j < d.len() implies #[trigger] d[j] == s[j] by {}
        let a = absorb(prev[i], x);
        assert(cls == prev.update(i, a));
        assert(founded_by(d, prev[i]));
        let fj = choose|j: int| 0 <= j < d.len() && #[trigger] d[j].bbox == prev[i].bbox && d[j].score == prev[i].score;
        assert(s[fj] == d[fj]);
        assert(prev[i].score >= x.score) by {
            assert(s[fj].score >= s[s.len() - 1].score);
        }
        assert forall|k: int| 0 <= k < cls.len() implies (#[trigger] cls[k]).detectors.len() >= 1 by {
            if k != i {
                assert(cls[k] == prev[k]);
            }
        }
}

#[verifier::rlimit(100)]
proof fn lemma_fold_absorb_2(s: Seq<Candidate>, c: FusionConfig, i: int)
    requires
        s.len() > 0,
        sorted_by_score(s),
        fold_invariant(s.drop_last(), cluster_fold(s.drop_last(), c), c),
        first_match(cluster_fold(s.drop_last(), c), s.last().bbox, c) == Some(i),
    ensures
        inv_founded(s, cluster_fold(s, c), c),
{
    reveal(inv_founded);
    let d = s.drop_last();
    let x = s.last();
    let prev = cluster_fold(d, c);
    let cls = cluster_fold(s, c);
    lemma_first_match(prev, x.bbox, c);
    assert forall|j: int| 0 <= j < d.len() implies #[trigger] d[j] == s[j] by {}
        let a = absorb(prev[i], x);
        assert(cls == prev.update(i, a));
        assert(founded_by(d, prev[i]));
        let fj = choose|j: int| 0 <= j < d.len() && #[trigger] d[j].bbox == prev[i].bbox && d[j].score == prev[i].score;
        assert(s[fj] == d[fj]);
        assert(prev[i].score >= x.score) by {
            assert(s[fj].score >= s[s.len() - 1].score);
        }
        assert forall|k: int| 0 <= k < cls.len() implies founded_by(s, #[trigger] cls[k]) by {
            if k == i {
                assert(s[fj].bbox == cls[k].bbox && s[fj].score == cls[k].score);
            } else {
                assert(cls[k] == prev[k]);
                assert(founded_by(d, prev[k]));
                let j = choose|j: int| 0 <= j < d.len() && #[trigger] d[j].bbox == prev[k].bbox && d[j].score == prev[k].score;
                assert(s[j] == d[j]);
            }
        }
}

#[verifier::rlimit(100)]
proof fn lemma_fold_absorb_3(s: Seq<Candidate>, c: FusionConfig, i: int)
    requires
        s.len() > 0,
        sorted_by_score(s),
        fold_invariant(s.drop_last(), cluster_fold(s.drop_last(), c), c),
        first_match(cluster_fold(s.drop_last(), c), s.last().bbox, c) == Some(i),
    ensures
        inv_mask_backed(s, cluster_fold(s, c), c),
{
    reveal(inv_founded);
    reveal(inv_mask_backed);
    let d = s.drop_last();
    let x = s.last();
    let prev = cluster_fold(d, c);
    let cls = cluster_fold(s, c);
    lemma_first_match(prev, x.bbox, c);
    assert forall|j: int| 0 <= j < d.len() implies #[trigger] d[j] == s[j] by {}
        let a = absorb(prev[i], x);
        assert(cls == prev.update(i, a));
        assert(founded_by(d, prev[i]));
        let fj = choose|j: int| 0 <= j < d.len() && #[trigger] d[j].bbox == prev[i].bbox && d[j].score == prev[i].score;
        assert(s[fj] == d[fj]);
        assert(prev[i].score >= x.score) by {
            assert(s[fj].score >= s[s.len() - 1].score);
        }
        assert forall|k: int| 0 <= k < cls.len() implies mask_backed(s, #[trigger] cls[k], c) by {
            if k == i {
                assert(mask_backed(d, prev[i], c));
                if let Some(v) = cls[k].masked_score {
                    if x.has_mask && v == x.score {
                        assert(s[s.len() - 1] == x);
                        assert(joined(cls[k].bbox, s[s.len() - 1], c));
                    } else {
                        let j = choose|j: int| 0 <= j < d.len() && #[trigger] d[j].has_mask && d[j].score == v && joined(prev[i].bbox, d[j], c);
                        assert(s[j] == d[j]);
                    }
                }
            } else {
                assert(cls[k] == prev[k]);
                assert(mask_backed(d, prev[k], c));
                if let Some(v) = prev[k].masked_score {
                    let j = choose|j: int| 0 <= j < d.len() && #[trigger] d[j].has_mask && d[j].score == v && joined(prev[k].bbox, d[j], c);
                    assert(s[j] == d[j]);
                }
            }
        }
}

#[verifier::rlimit(100)]
#[verifier::spinoff_prover]
proof fn lemma_fold_absorb_4(s: Seq<Candidate>, c: FusionConfig, i: int)
    requires
        s.len() > 0,
        sorted_by_score(s),
        fold_invariant(s.drop_last(), cluster_fold(s.drop_last(), c), c),
        first_match(cluster_fold(s.drop_last(), c), s.last().bbox, c) == Some(i),
    ensures
        inv_votes_backed(s, cluster_fold(s, c), c),
{
    reveal(inv_founded);
    reveal(inv_votes_backed);
    let d = s.drop_last();
    let x = s.last();
    let prev = cluster_fold(d, c);
    let cls = cluster_fold(s, c);
    lemma_first_match(prev, x.bbox, c);
    assert forall|j: int| 0 <= j < d.len() implies #[trigger] d[j] == s[j] by {}
        let a = absorb(prev[i], x);
        assert(cls == prev.update(i, a));
        assert(founded_by(d, prev[i]));
        let fj = choose|j: int| 0 <= j < d.len() && #[trigger] d[j].bbox == prev[i].bbox && d[j].score == prev[i].score;
        assert(s[fj] == d[fj]);
        assert(prev[i].score >= x.score) by {
            assert(s[fj].score >= s[s.len() - 1].score);
        }
        assert forall|k: int| 0 <= k < cls.len() implies votes_backed(s, #[trigger] cls[k], c) by {
            assert(votes_backed(d, prev[k], c));
            assert forall|t: int| 0 <= t < cls[k].detectors.len() implies exists|j: int|
                0 <= j < s.len() && #[trigger] s[j].detector == #[trigger] cls[k].detectors[t] && joined(cls[k].bbox, s[j], c) by {
                if k == i && t >= prev[i].detectors.len() {
                    assert(cls[k].detectors[t] == x.detector);
                    assert(s[s.len() - 1] == x);
                    assert(joined(cls[k].bbox, x, c));
                } else {
                    assert(cls[k].detectors[t] == prev[k].detectors[t]);
                    let j = choose|j: int| 0 <= j < d.len() && #[trigger] d[j].detector == #[trigger] prev[k].detectors[t] && joined(prev[k].bbox, d[j], c);
                    assert(s[j] == d[j]);
                }
            }
        }
}

proof fn lemma_represented_kept(prev: Seq<ClusterView>, i: int, x: Candidate, y: Candidate, c: FusionConfig)
    requires
        0 <= i < prev.len(),
        represented(prev, y, c),
    ensures
        represented(prev.update(i, absorb(prev[i], x)), y, c),
{
    let cls = prev.update(i, absorb(prev[i], x));
    let k = choose|k: int| 0 <= k < prev.len() && joined(#[trigger] prev[k].bbox, y, c) && prev[k].score >= y.score && prev[k].detectors.contains(y.detector);
    assert(cls[k].bbox == prev[k].bbox && cls[k].score == prev[k].score);
    let t = choose|t: int| 0 <= t < prev[k].detectors.len() && prev[k].detectors[t] == y.detector;
    assert(cls[k].detectors[t] == y.detector);
}

proof fn lemma_represented_absorbed(prev: Seq<ClusterView>, i: int, x: Candidate, c: FusionConfig)
    requires
        0 <= i < prev.len(),
        overlaps_spec(prev[i].bbox, x.bbox, c),
        prev[i].score >= x.score,
    ensures
        represented(prev.update(i, absorb(prev[i], x)), x, c),
{
    let cls = prev.update(i, absorb(prev[i], x));
    if !prev[i].detectors.contains(x.detector) {
        assert(cls[i].detectors[prev[i].detectors.len() as int] == x.detector);
    }
    assert(cls[i].detectors.contains(x.detector));
    assert(joined(cls[i].bbox, x, c));
}

proof fn lemma_absorbing_scores_higher(s: Seq<Candidate>, c: FusionConfig, i: int)
    requires
        s.len() > 0,
        sorted_by_score(s),
        fold_invariant(s.drop_last(), cluster_fold(s.drop_last(), c), c),
        0 <= i < cluster_fold(s.drop_last(), c).len(),
    ensures
        cluster_fold(s.drop_last(), c)[i].score >= s.last().score,
{
    reveal(inv_founded);
    let d = s.drop_last();
    let prev = cluster_fold(d, c);
    assert(founded_by(d, prev[i]));
    let fj = choose|j: int| 0 <= j < d.len() && #[trigger] d[j].bbox == prev[i].bbox && d[j].score == prev[i].score;
    assert(s[fj] == d[fj]);
    assert(s[fj].score >= s[s.len() - 1].score);
}

proof fn lemma_fold_absorb_5(s: Seq<Candidate>, c: FusionConfig, i: int)
    requires
        s.len() > 0,
        sorted_by_score(s),
        fold_invariant(s.drop_last(), cluster_fold(s.drop_last(), c), c),
        first_match(cluster_fold(s.drop_last(), c), s.last().bbox, c) == Some(i),
    ensures
        inv_represented(s, cluster_fold(s, c), c),
{
    let d = s.drop_last();
    let x = s.last();
    let prev = cluster_fold(d, c);
    let cls = cluster_fold(s, c);
    lemma_first_match(prev, x.bbox, c);
    assert(cls == prev.update(i, absorb(prev[i], x)));
    lemma_absorbing_scores_higher(s, c, i);
    lemma_represented_absorbed(prev, i, x, c);
    reveal(inv_represented);
    assert forall|m: int| 0 <= m < s.len() implies represented(cls, #[trigger] s[m], c) by {
        if m < s.len() - 1 {
            assert(s[m] == d[m]);
            assert(represented(prev, d[m], c));
            lemma_represented_kept(prev, i, x, d[m], c);
        }
    }
}

#[verifier::rlimit(100)]
proof fn lemma_fold_absorb_6(s: Seq<Candidate>, c: FusionConfig, i: int)
    requires
        s.len() > 0,
        sorted_by_score(s),
        fold_invariant(s.drop_last(), cluster_fold(s.drop_last(), c), c),
        first_match(cluster_fold(s.drop_last(), c), s.last().bbox, c) == Some(i),
    ensures
        inv_apart(s, cluster_fold(s, c), c),
{
    reveal(inv_apart);
    reveal(inv_founded);
    let d = s.drop_last();
    let x = s.last();
    let prev = cluster_fold(d, c);
    let cls = cluster_fold(s, c);
    lemma_first_match(prev, x.bbox, c);
    assert forall|j: int| 0 <= j < d.len() implies #[trigger] d[j] == s[j] by {}
        let a = absorb(prev[i], x);
        assert(cls == prev.update(i, a));
        assert(founded_by(d, prev[i]));
        let fj = choose|j: int| 0 <= j < d.len() && #[trigger] d[j].bbox == prev[i].bbox && d[j].score == prev[i].score;
        assert(s[fj] == d[fj]);
        assert(prev[i].score >= x.score) by {
            assert(s[fj].score >= s[s.len() - 1].score);
        }
        assert forall|u: int, v: int| 0 <= u < v < cls.len() implies !overlaps_spec(#[trigger] cls[u].bbox, #[trigger] cls[v].bbox, c) by {
            assert(cls[u].bbox == prev[u].bbox);
            assert(cls[v].bbox == prev[v].bbox);
        }
}

proof fn lemma_fold_step_absorb(s: Seq<Candidate>, c: FusionConfig, i: int)
    requires
        s.len() > 0,
        sorted_by_score(s),
        fold_invariant(s.drop_last(), cluster_fold(s.drop_last(), c), c),
        first_match(cluster_fold(s.drop_last(), c), s.last().bbox, c) == Some(i),
    ensures
        fold_invariant(s, cluster_fold(s, c), c),
{
    lemma_fold_absorb_0(s, c, i);
    lemma_fold_absorb_1(s, c, i);
    lemma_fold_absorb_2(s, c, i);
    lemma_fold_absorb_3(s, c, i);
    lemma_fold_absorb_4(s, c, i);
    lemma_fold_absorb_5(s, c, i);
    lemma_fold_absorb_6(s, c, i);
}

/// Greedy clustering of a score-sorted sequence keeps the fold invariant.
pub proof fn lemma_cluster_fold(s: Seq<Candidate>, c: FusionConfig)
    requires
        sorted_by_score(s),
    ensures
        fold_invariant(s, cluster_fold(s, c), c),
    decreases s.len(),
{
    if s.len() == 0 {
        reveal(inv_distinct_votes);
        reveal(inv_has_vote);
        reveal(inv_founded);
        reveal(inv_mask_backed);
        reveal(inv_votes_backed);
        reveal(inv_represented);
        reveal(inv_apart);
        return;
    }
    let d = s.drop_last();
    assert(sorted_by_score(d));
    lemma_cluster_fold(d, c);
    match first_match(cluster_fold(d, c), s.last().bbox, c) {
        None => lemma_fold_step_new(s, c),
        Some(i) => lemma_fold_step_absorb(s, c, i),
    }
}

/// The sequence `fuse` clusters: the candidates of one class, best first.
pub open spec fn sorted_class(cands: Seq<Candidate>, class: Class) -> Seq<Candidate> {
    sort_by_score(of_class(cands, class))
}

proof fn lemma_sorted_class(cands: Seq<Candidate>, class: Class, c: FusionConfig)
    ensures
        cluster_spec(cands, class, c) == cluster_fold(sorted_class(cands, class), c),
        fold_invariant(sorted_class(cands, class), cluster_spec(cands, class, c), c),
        forall|j: int|
            0 <= j < sorted_class(cands, class).len() ==> exists|i: int|
                0 <= i < cands.len() && #[trigger] cands[i] == #[trigger] sorted_class(cands, class)[j]
                    && cands[i].class == class,
        forall|i: int|
            0 <= i < cands.len() && #[trigger] cands[i].class == class ==> exists|m: int|
                0 <= m < sorted_class(cands, class).len() && #[trigger] sorted_class(cands, class)[m] == cands[i],
{
    let oc = of_class(cands, class);
    let s = sort_by_score(oc);
    lemma_of_class(cands, class);
    lemma_sort_by_score(oc);
    lemma_cluster_fold(s, c);
    assert forall|j: int| 0 <= j < s.len() implies exists|i: int|
        0 <= i < cands.len() && #[trigger] cands[i] == #[trigger] s[j] && cands[i].class == class by {
        assert(s.contains(s[j]));
        assert(oc.contains(s[j]));
        assert(cands.contains(s[j]));
    }
    assert forall|i: int| 0 <= i < cands.len() && #[trigger] cands[i].class == class implies exists|m: int|
        0 <= m < s.len() && #[trigger] s[m] == cands[i] by {
        assert(cands.contains(cands[i]));
        assert(oc.contains(cands[i]));
        assert(s.contains(cands[i]));
    }
}

/// Every candidate of the class lands in a cluster whose representative is
/// its own box or matches it, that scores at least as much, and that counts
/// its vote. Nothing a detector proposes is silently dropped.
pub proof fn law_every_candidate_is_represented(cands: Seq<Candidate>, class: Class, c: FusionConfig)
    ensures
        forall|i: int|
            0 <= i < cands.len() && #[trigger] cands[i].class == class ==> represented(
                cluster_spec(cands, class, c),
                cands[i],
                c,
            ),
{
    lemma_sorted_class(cands, class, c);
    let s = sorted_class(cands, class);
    let cls = cluster_spec(cands, class, c);
    reveal(inv_represented);
    assert forall|i: int| 0 <= i < cands.len() && #[trigger] cands[i].class == class implies represented(cls, cands[i], c) by {
        let m = choose|m: int| 0 <= m < s.len() && #[trigger] s[m] == cands[i];
        assert(represented(cls, s[m], c));
    }
}

/// A cluster's geometry and score are those of one candidate of the class:
/// the highest-scoring box wins, boxes are never unioned.
pub proof fn law_cluster_geometry_is_a_candidate(cands: Seq<Candidate>, class: Class, c: FusionConfig)
    ensures
        forall|k: int|
            0 <= k < cluster_spec(cands, class, c).len() ==> exists|i: int|
                0 <= i < cands.len() && cands[i].class == class && #[trigger] cands[i].bbox == (
                #[trigger] cluster_spec(cands, class, c)[k]).bbox && cands[i].score == cluster_spec(
                    cands,
                    class,
                    c,
                )[k].score,
{
    lemma_sorted_class(cands, class, c);
    let s = sorted_class(cands, class);
    let cls = cluster_spec(cands, class, c);
    reveal(inv_founded);
    assert forall|k: int| 0 <= k < cls.len() implies exists|i: int|
        0 <= i < cands.len() && cands[i].class == class && #[trigger] cands[i].bbox == (#[trigger] cls[k]).bbox
            && cands[i].score == cls[k].score by {
        assert(founded_by(s, cls[k]));
        let j = choose|j: int| 0 <= j < s.len() && #[trigger] s[j].bbox == cls[k].bbox && s[j].score == cls[k].score;
        let i = choose|i: int| 0 <= i < cands.len() && #[trigger] cands[i] == #[trigger] s[j] && cands[i].class == class;
        assert(cands[i].bbox == cls[k].bbox);
    }
}

/// A cluster counts each detector once and at least one; every vote it counts
/// was cast by a candidate of the class that it took in.
pub proof fn law_votes_are_distinct_detectors(cands: Seq<Candidate>, class: Class, c: FusionConfig)
    ensures
        forall|k: int|
            0 <= k < cluster_spec(cands, class, c).len() ==> (#[trigger] cluster_spec(
                cands,
                class,
                c,
            )[k]).detectors.no_duplicates() && cluster_spec(cands, class, c)[k].detectors.len() >= 1,
        forall|k: int, t: int|
            0 <= k < cluster_spec(cands, class, c).len() && 0 <= t < cluster_spec(
                cands,
                class,
                c,
            )[k].detectors.len() ==> exists|i: int|
                0 <= i < cands.len() && cands[i].class == class && #[trigger] cands[i].detector
                    == #[trigger] cluster_spec(cands, class, c)[k].detectors[t] && joined(
                    cluster_spec(cands, class, c)[k].bbox,
                    cands[i],
                    c,
                ),
{
    lemma_sorted_class(cands, class, c);
    let s = sorted_class(cands, class);
    let cls = cluster_spec(cands, class, c);
    reveal(inv_distinct_votes);
    reveal(inv_has_vote);
    reveal(inv_votes_backed);
    assert forall|k: int, t: int| 0 <= k < cls.len() && 0 <= t < cls[k].detectors.len() implies exists|i: int|
        0 <= i < cands.len() && cands[i].class == class && #[trigger] cands[i].detector == #[trigger] cls[k].detectors[t]
            && joined(cls[k].bbox, cands[i], c) by {
        assert(votes_backed(s, cls[k], c));
        let j = choose|j: int| 0 <= j < s.len() && #[trigger] s[j].detector == #[trigger] cls[k].detectors[t] && joined(cls[k].bbox, s[j], c);
        let i = choose|i: int| 0 <= i < cands.len() && #[trigger] cands[i] == #[trigger] s[j] && cands[i].class == class;
        assert(cands[i].detector == cls[k].detectors[t]);
    }
}

/// A cluster's masked score is the score of a masked candidate of the class
/// that it took in.
pub proof fn law_masked_scores_are_backed(cands: Seq<Candidate>, class: Class, c: FusionConfig)
    ensures
        forall|k: int|
            0 <= k < cluster_spec(cands, class, c).len() ==> ((#[trigger] cluster_spec(
                cands,
                class,
                c,
            )[k]).masked_score matches Some(v) ==> exists|i: int|
                0 <= i < cands.len() && cands[i].class == class && #[trigger] cands[i].has_mask
                    && cands[i].score == v && joined(cluster_spec(cands, class, c)[k].bbox, cands[i], c)),
{
    lemma_sorted_class(cands, class, c);
    let s = sorted_class(cands, class);
    let cls = cluster_spec(cands, class, c);
    reveal(inv_mask_backed);
    assert forall|k: int| 0 <= k < cls.len() implies ((#[trigger] cls[k]).masked_score matches Some(v) ==> exists|i: int|
        0 <= i < cands.len() && cands[i].class == class && #[trigger] cands[i].has_mask && cands[i].score == v
            && joined(cls[k].bbox, cands[i], c)) by {
        assert(mask_backed(s, cls[k], c));
        if let Some(v) = cls[k].masked_score {
            let j = choose|j: int| 0 <= j < s.len() && #[trigger] s[j].has_mask && s[j].score == v && joined(cls[k].bbox, s[j], c);
            let i = choose|i: int| 0 <= i < cands.len() && #[trigger] cands[i] == #[trigger] s[j] && cands[i].class == class;
            assert(cands[i].has_mask);
        }
    }
}

/// No two cluster representatives of one class match each other: one object,
/// one cluster.
pub proof fn law_representatives_are_apart(cands: Seq<Candidate>, class: Class, c: FusionConfig)
    ensures
        forall|u: int, v: int|
            0 <= u < v < cluster_spec(cands, class, c).len() ==> !overlaps_spec(
                #[trigger] cluster_spec(cands, class, c)[u].bbox,
                #[trigger] cluster_spec(cands, class, c)[v].bbox,
                c,
            ),
{
    lemma_sorted_class(cands, class, c);
    reveal(inv_apart);
}

/// `pick_bubble` returns a containing balloon, an accepted one whenever any
/// containing balloon is accepted, and nothing only when no balloon contains
/// the box.
pub proof fn lemma_pick_bubble(bubbles: Seq<FusedBubbleView>, b: BBox, c: FusionConfig, n: int)
    requires
        0 <= n <= bubbles.len(),
    ensures
        match pick_bubble(bubbles, b, c, n) {
            Some(p) => 0 <= p < n && inside_bubble(bubbles, p, b, c) && ((exists|k: int|
                0 <= k < n && inside_bubble(bubbles, k, b, c) && #[trigger] bubbles[k].accepted)
                ==> bubbles[p].accepted),
            None => forall|k: int| 0 <= k < n ==> !#[trigger] inside_bubble(bubbles, k, b, c),
        },
    decreases n,
{
    if n > 0 {
        lemma_pick_bubble(bubbles, b, c, n - 1);
    }
}

/// The routing rules for one fused region.
pub open spec fn routed<M: CoverageSource>(
    r: FusedRegionView,
    bubbles: Seq<FusedBubbleView>,
    cands: Seq<Candidate>,
    c: FusionConfig,
    mask: M,
) -> bool {
    &&& (r.role == Role::Dialogue) == (r.bubble is Some)
    &&& (r.bubble matches Some(i) ==> 0 <= i < bubbles.len() && r.accepted == bubbles[i].accepted
        && ioa_reaches(r.bbox, bubbles[i].bbox, c.dialogue_ioa as int))
    &&& ((exists|k: int| 0 <= k < bubbles.len() && inside_bubble(bubbles, k, r.bbox, c)
        && #[trigger] bubbles[k].accepted) ==> r.accepted)
    &&& (r.role == Role::Outside && r.accepted ==> r.detectors.len() >= 2 || pixel_evidence(mask, r.bbox, c))
    &&& (r.role == Role::Sfx && r.accepted ==> pixel_evidence(mask, r.bbox, c) || confirming_text(cands, r.bbox, c))
    &&& (r.role == Role::Sfx && r.accepted ==> (r.mask_fill matches Some(f) ==> fill_meets(f, c.sfx_mask_fill as int)))
}

proof fn lemma_region_routed<M: CoverageSource>(
    cl: ClusterView,
    class: Class,
    cands: Seq<Candidate>,
    c: FusionConfig,
    mask: M,
)
    ensures
        routed(region_of(cl, class, bubbles_spec(cands, c), cands, c, mask), bubbles_spec(cands, c), cands, c, mask),
        class == Class::Text ==> region_of(cl, class, bubbles_spec(cands, c), cands, c, mask).role != Role::Sfx,
        class == Class::Sfx ==> region_of(cl, class, bubbles_spec(cands, c), cands, c, mask).role != Role::Outside,
{
    let bs = bubbles_spec(cands, c);
    lemma_pick_bubble(bs, cl.bbox, c, bs.len() as int);
}

/// How `fuse` routes each text and SFX region:
/// - a region is dialogue exactly when it names a balloon; that balloon
///   contains it by `dialogue_ioa`, and the region is accepted exactly when
///   the balloon is;
/// - a region inside any accepted balloon is accepted;
/// - an accepted region outside every balloon has two distinct votes or pixel
///   confirmation;
/// - an accepted SFX region has pixel confirmation or a matching text box from
///   a detector other than the layout model;
/// - an SFX region whose decoded mask lit less than `sfx_mask_fill` of its box
///   is accepted only inside an accepted balloon: a mask that traced nothing
///   is no mask evidence;
/// - a text-class cluster never becomes an SFX region, and an SFX-class
///   cluster never becomes an outside-text region.
pub proof fn law_region_routing<M: CoverageSource>(cands: Seq<Candidate>, c: FusionConfig, mask: M)
    ensures
        forall|j: int|
            0 <= j < fusion_spec(cands, c, mask).regions.len() ==> routed(
                #[trigger] fusion_spec(cands, c, mask).regions[j],
                fusion_spec(cands, c, mask).bubbles,
                cands,
                c,
                mask,
            ),
        forall|j: int|
            0 <= j < regions_of(cands, Class::Text, c, mask).len() ==> (#[trigger] regions_of(
                cands,
                Class::Text,
                c,
                mask,
            )[j]).role != Role::Sfx,
        forall|j: int|
            0 <= j < regions_of(cands, Class::Sfx, c, mask).len() ==> (#[trigger] regions_of(
                cands,
                Class::Sfx,
                c,
                mask,
            )[j]).role != Role::Outside,
{
    let f = fusion_spec(cands, c, mask);
    let bs = bubbles_spec(cands, c);
    let t = regions_of(cands, Class::Text, c, mask);
    let x = regions_of(cands, Class::Sfx, c, mask);
    let ct = cluster_spec(cands, Class::Text, c);
    let cx = cluster_spec(cands, Class::Sfx, c);
    assert forall|j: int| 0 <= j < f.regions.len() implies routed(#[trigger] f.regions[j], f.bubbles, cands, c, mask) by {
        if j < t.len() {
            assert(f.regions[j] == t[j]);
            assert(t[j] == region_of(ct[j], Class::Text, bs, cands, c, mask));
            lemma_region_routed(ct[j], Class::Text, cands, c, mask);
        } else {
            assert(f.regions[j] == x[j - t.len()]);
            assert(x[j - t.len()] == region_of(cx[j - t.len()], Class::Sfx, bs, cands, c, mask));
            lemma_region_routed(cx[j - t.len()], Class::Sfx, cands, c, mask);
        }
    }
    assert forall|j: int| 0 <= j < t.len() implies (#[trigger] t[j]).role != Role::Sfx by {
        assert(t[j] == region_of(ct[j], Class::Text, bs, cands, c, mask));
        lemma_region_routed(ct[j], Class::Text, cands, c, mask);
    }
    assert forall|j: int| 0 <= j < x.len() implies (#[trigger] x[j]).role != Role::Outside by {
        assert(x[j] == region_of(cx[j], Class::Sfx, bs, cands, c, mask));
        lemma_region_routed(cx[j], Class::Sfx, cands, c, mask);
    }
}

/// A balloon is accepted exactly when two distinct detectors voted for it or
/// its masked score reaches `strong_mask_score`; a strong mask is always a
/// masked balloon candidate that the balloon took in. One vote without such a
/// mask is review-only.
pub proof fn law_bubble_acceptance(cands: Seq<Candidate>, c: FusionConfig)
    ensures
        forall|i: int|
            0 <= i < bubbles_spec(cands, c).len() ==> ((#[trigger] bubbles_spec(cands, c)[i]).accepted
                <==> bubble_accepted(cluster_spec(cands, Class::Bubble, c)[i], c)),
        forall|i: int|
            0 <= i < bubbles_spec(cands, c).len() && (#[trigger] bubbles_spec(cands, c)[i]).accepted
                && bubbles_spec(cands, c)[i].detectors.len() < 2 ==> exists|k: int|
                0 <= k < cands.len() && cands[k].class == Class::Bubble && #[trigger] cands[k].has_mask
                    && cands[k].score >= c.strong_mask_score && joined(bubbles_spec(cands, c)[i].bbox, cands[k], c),
        forall|i: int|
            0 <= i < bubbles_spec(cands, c).len() ==> (#[trigger] bubbles_spec(cands, c)[i]).detectors.no_duplicates()
                && bubbles_spec(cands, c)[i].detectors.len() >= 1,
{
    let bs = bubbles_spec(cands, c);
    let cls = cluster_spec(cands, Class::Bubble, c);
    law_masked_scores_are_backed(cands, Class::Bubble, c);
    law_votes_are_distinct_detectors(cands, Class::Bubble, c);
    assert forall|i: int| 0 <= i < bs.len() && (#[trigger] bs[i]).accepted && bs[i].detectors.len() < 2 implies exists|k: int|
        0 <= k < cands.len() && cands[k].class == Class::Bubble && #[trigger] cands[k].has_mask
            && cands[k].score >= c.strong_mask_score && joined(bs[i].bbox, cands[k], c) by {
        assert(bs[i] == bubble_of(cls[i], c));
        let v = cls[i].masked_score->0;
        let k = choose|k: int| 0 <= k < cands.len() && cands[k].class == Class::Bubble && #[trigger] cands[k].has_mask
            && cands[k].score == v && joined(cls[i].bbox, cands[k], c);
    }
    assert forall|i: int| 0 <= i < bs.len() implies (#[trigger] bs[i]).detectors.no_duplicates() && bs[i].detectors.len() >= 1 by {
        assert(bs[i] == bubble_of(cls[i], c));
    }
}

/// Every fused region counts each detector once and has at least one vote.
pub proof fn law_region_votes<M: CoverageSource>(cands: Seq<Candidate>, c: FusionConfig, mask: M)
    ensures
        forall|j: int|
            0 <= j < fusion_spec(cands, c, mask).regions.len() ==> (#[trigger] fusion_spec(cands, c, mask).regions[j]).detectors.no_duplicates()
                && fusion_spec(cands, c, mask).regions[j].detectors.len() >= 1,
{
    let f = fusion_spec(cands, c, mask);
    let bs = bubbles_spec(cands, c);
    let t = regions_of(cands, Class::Text, c, mask);
    let x = regions_of(cands, Class::Sfx, c, mask);
    let ct = cluster_spec(cands, Class::Text, c);
    let cx = cluster_spec(cands, Class::Sfx, c);
    law_votes_are_distinct_detectors(cands, Class::Text, c);
    law_votes_are_distinct_detectors(cands, Class::Sfx, c);
    assert forall|j: int| 0 <= j < f.regions.len() implies (#[trigger] f.regions[j]).detectors.no_duplicates()
        && f.regions[j].detectors.len() >= 1 by {
        if j < t.len() {
            assert(f.regions[j] == t[j]);
            assert(t[j] == region_of(ct[j], Class::Text, bs, cands, c, mask));
        } else {
            assert(f.regions[j] == x[j - t.len()]);
            assert(x[j - t.len()] == region_of(cx[j - t.len()], Class::Sfx, bs, cands, c, mask));
        }
    }
}

/// An accepted SFX region always carries the layout model's instance mask: a
/// masked SFX candidate that its cluster took in.
pub proof fn law_sfx_needs_a_mask<M: CoverageSource>(cands: Seq<Candidate>, c: FusionConfig, mask: M)
    ensures
        forall|j: int|
            0 <= j < regions_of(cands, Class::Sfx, c, mask).len() && (#[trigger] regions_of(cands, Class::Sfx, c, mask)[j]).role
                == Role::Sfx && regions_of(cands, Class::Sfx, c, mask)[j].accepted ==> exists|k: int|
                0 <= k < cands.len() && cands[k].class == Class::Sfx && #[trigger] cands[k].has_mask && joined(
                    regions_of(cands, Class::Sfx, c, mask)[j].bbox,
                    cands[k],
                    c,
                ),
{
    let bs = bubbles_spec(cands, c);
    let x = regions_of(cands, Class::Sfx, c, mask);
    let cx = cluster_spec(cands, Class::Sfx, c);
    law_masked_scores_are_backed(cands, Class::Sfx, c);
    assert forall|j: int| 0 <= j < x.len() && (#[trigger] x[j]).role == Role::Sfx && x[j].accepted implies exists|k: int|
        0 <= k < cands.len() && cands[k].class == Class::Sfx && #[trigger] cands[k].has_mask && joined(x[j].bbox, cands[k], c) by {
        assert(x[j] == region_of(cx[j], Class::Sfx, bs, cands, c, mask));
        lemma_pick_bubble(bs, cx[j].bbox, c, bs.len() as int);
        let v = cx[j].masked_score->0;
        let k = choose|k: int| 0 <= k < cands.len() && cands[k].class == Class::Sfx && #[trigger] cands[k].has_mask
            && cands[k].score == v && joined(cx[j].bbox, cands[k], c);
    }
}

} // verus!
