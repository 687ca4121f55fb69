use vstd::prelude::*;
use crate::color::{ColorObj, within_tolerance, foreground, background, marker};
use crate::frame::{Frame, marks};
use crate::cluster::{deep_view, partitions_foreground, all_grown, extract_clusters};
use crate::centroid::{centroid_of, centroids, lemma_centroid_in_bounding_box};
use crate::track::{track_frames, track_centroids};

verus! {

/// `m` is the mask of `src`: same size, and each pixel foreground exactly where
/// the source pixel lies within `tol` of `reference`, background elsewhere.
pub open spec fn is_mask_of(m: Frame, src: Frame, reference: ColorObj, tol: u8) -> bool {
    &&& m.wf()
    &&& m.width == src.width
    &&& m.height == src.height
    &&& forall|i: int| 0 <= i < m.pixels@.len() ==> #[trigger] m.pixels@[i] == (
            if within_tolerance(src.pixels@[i], reference, tol) { foreground() } else { background() })
}

/// `cs` are the centroids, in order, of the clusters that the neighborhood search
/// of radius `r` finds in `mask`: clusters that partition its foreground, each
/// grown from the first foreground pixel of the scan that no earlier cluster holds.
pub open spec fn centroids_of_mask(mask: Frame, cs: Seq<(u32, u32)>, r: int) -> bool {
    exists|clusters: Seq<Seq<(u32, u32)>>| #[trigger] partitions_foreground(mask, clusters)
        && all_grown(mask, clusters, r)
        && clusters.len() == cs.len()
        && forall|c: int| 0 <= c < cs.len() ==>
            (#[trigger] cs[c]).0 == centroid_of(clusters[c]).0 && cs[c].1 == centroid_of(clusters[c]).1
}

/// `a` is `m` with the pixel at each of `cs` set to the marker color.
pub open spec fn is_annotation_of(a: Frame, m: Frame, cs: Seq<(u32, u32)>) -> bool {
    &&& a.wf()
    &&& a.width == m.width
    &&& a.height == m.height
    &&& forall|i: int| 0 <= i < a.pixels@.len() ==> #[trigger] a.pixels@[i] == (
            if marks(m.width as int, cs, cs.len() as int, i) { marker() } else { m.pixels@[i] })
}

/// The centroids of the clusters of a mask frame, in the order in which the
/// clusters were found.
pub fn detect_centroids(mask: &Frame, radius: u32) -> (res: Vec<(u32, u32)>)
    requires
        mask.wf(),
    ensures
        centroids_of_mask(*mask, res@, radius as int),
        forall|c: int| 0 <= c < res@.len() ==> mask.in_bounds(#[trigger] res@[c].0 as int, res@[c].1 as int),
{
    let clusters = extract_clusters(mask, radius);
    let ghost cs = deep_view(clusters@);
    proof {
        assert forall|c: int| 0 <= c < clusters@.len() implies #[trigger] clusters@[c]@.len() > 0 by {
            assert(cs[c].len() > 0);
        }
    }
    let res = centroids(&clusters);
    proof {
        assert forall|c: int| 0 <= c < res@.len() implies mask.in_bounds(#[trigger] res@[c].0 as int, res@[c].1 as int) by {
            let s = cs[c];
            assert(s == clusters@[c]@);
            assert forall|a: int| 0 <= a < s.len() implies 0 <= (#[trigger] s[a]).0 <= mask.width - 1
                && 0 <= s[a].1 <= mask.height - 1 by {
                assert(mask.is_foreground(s[a].0 as int, s[a].1 as int));
            }
            lemma_centroid_in_bounding_box(s, 0, mask.width - 1, 0, mask.height - 1);
        }
        assert(partitions_foreground(*mask, cs) && all_grown(*mask, cs, radius as int));
    }
    res
}

/// The results of analysing a sequence of frames.
pub struct Analysis {
    /// The mask of each frame.
    pub masks: Vec<Frame>,
    /// Each mask with its centroids marked.
    pub annotated: Vec<Frame>,
    /// The centroids found in each mask.
    pub centroids: Vec<Vec<(u32, u32)>>,
    /// The entries of each track: the frame of each detection and its position.
    pub tracks: Vec<Vec<(usize, (u32, u32))>>,
}

/// Runs the whole pipeline on `frames`: thresholds each frame against `reference`
/// and `tol`, clusters each mask with the given neighborhood radius, marks the
/// centroids on a copy of each mask, and assembles the centroids into tracks.
pub fn analyze(frames: &Vec<Frame>, reference: ColorObj, tol: u8, radius: u32) -> (res: Analysis)
    requires
        forall|f: int| 0 <= f < frames@.len() ==> (#[trigger] frames@[f]).wf(),
    ensures
        res.masks@.len() == frames@.len(),
        res.annotated@.len() == frames@.len(),
        res.centroids@.len() == frames@.len(),
        forall|f: int| 0 <= f < frames@.len() ==> {
            &&& is_mask_of(#[trigger] res.masks@[f], frames@[f], reference, tol)
            &&& centroids_of_mask(res.masks@[f], res.centroids@[f]@, radius as int)
            &&& is_annotation_of(res.annotated@[f], res.masks@[f], res.centroids@[f]@)
        },
        deep_view(res.tracks@) == track_frames(deep_view(res.centroids@)),
{
    let mut masks: Vec<Frame> = Vec::new();
    let mut annotated: Vec<Frame> = Vec::new();
    let mut cents: Vec<Vec<(u32, u32)>> = Vec::new();
    let mut f: usize = 0;
    while f < frames.len()
        invariant
            forall|g: int| 0 <= g < frames@.len() ==> (#[trigger] frames@[g]).wf(),
            f <= frames@.len(),
            masks@.len() == f,
            annotated@.len() == f,
            cents@.len() == f,
            forall|g: int| 0 <= g < f ==> {
                &&& is_mask_of(#[trigger] masks@[g], frames@[g], reference, tol)
                &&& centroids_of_mask(masks@[g], cents@[g]@, radius as int)
                &&& is_annotation_of(annotated@[g], masks@[g], cents@[g]@)
            },
        decreases frames@.len() - f,
    {
        let frame = &frames[f];
        let mask = frame.threshold(reference, tol);
        let cs = detect_centroids(&mask, radius);
        let marked = mask.annotate(&cs);
        masks.push(mask);
        annotated.push(marked);
        cents.push(cs);
        f += 1;
    }
    let tracks = track_centroids(&cents);
    Analysis { masks, annotated, centroids: cents, tracks }
}

} // verus!
