use vstd::prelude::*;
use crate::cluster::deep_view;

verus! {

/// The square of the Euclidean distance between two positions.
pub open spec fn sq_dist(a: (u32, u32), b: (u32, u32)) -> nat {
    ((a.0 - b.0) * (a.0 - b.0) + (a.1 - b.1) * (a.1 - b.1)) as nat
}

/// The integer square root of `n`, rounded down.
pub open spec fn isqrt(n: nat) -> nat
    decreases n,
{
    if n == 0 {
        0
    } else {
        let r = isqrt((n - 1) as nat);
        if (r + 1) * (r + 1) <= n { r + 1 } else { r }
    }
}

/// The Euclidean distance between two positions, rounded down.
pub open spec fn dist(a: (u32, u32), b: (u32, u32)) -> nat {
    isqrt(sq_dist(a, b))
}

/// Among the first `n` tracks, the one whose last position is nearest to `c`;
/// on equal distances the lowest index.
pub open spec fn nearest(ts: Seq<Seq<(usize, (u32, u32))>>, c: (u32, u32), n: int) -> int
    decreases n,
{
    if n <= 1 {
        0
    } else {
        let b = nearest(ts, c, n - 1);
        if dist(ts[n - 1].last().1, c) < dist(ts[b].last().1, c) { n - 1 } else { b }
    }
}

/// `c`, detected in frame `fr`, appended to the track nearest to it; with no
/// tracks, nothing changes.
pub open spec fn assign(ts: Seq<Seq<(usize, (u32, u32))>>, c: (u32, u32), fr: usize) -> Seq<Seq<(usize, (u32, u32))>> {
    if ts.len() == 0 {
        ts
    } else {
        let k = nearest(ts, c, ts.len() as int);
        ts.update(k, ts[k].push((fr, c)))
    }
}

/// The tracks after assigning the first `n` of `cs`, the centroids of frame `fr`,
/// one after the other.
pub open spec fn assign_frame(ts: Seq<Seq<(usize, (u32, u32))>>, cs: Seq<(u32, u32)>, fr: usize, n: int) -> Seq<Seq<(usize, (u32, u32))>>
    decreases n,
{
    if n <= 0 {
        ts
    } else {
        assign(assign_frame(ts, cs, fr, n - 1), cs[n - 1], fr)
    }
}

/// One new track for each centroid of the first frame, holding that centroid alone.
pub open spec fn bootstrap(cs: Seq<(u32, u32)>) -> Seq<Seq<(usize, (u32, u32))>> {
    Seq::new(cs.len(), |i: int| seq![(0usize, cs[i])])
}

/// The tracks after processing the centroid lists of `frames` in order. Each
/// entry of a track is the frame it was detected in and its position.
pub open spec fn track_frames(frames: Seq<Seq<(u32, u32)>>) -> Seq<Seq<(usize, (u32, u32))>>
    decreases frames.len(),
{
    if frames.len() == 0 {
        Seq::empty()
    } else if frames.len() == 1 {
        bootstrap(frames[0])
    } else {
        let prev = track_frames(frames.drop_last());
        assign_frame(prev, frames.last(), (frames.len() - 1) as usize, frames.last().len() as int)
    }
}

/// Every track holds at least one position.
pub open spec fn tracks_nonempty(ts: Seq<Seq<(usize, (u32, u32))>>) -> bool {
    forall|j: int| 0 <= j < ts.len() ==> #[trigger] ts[j].len() > 0
}

proof fn lemma_isqrt_bounds(n: nat)
    ensures
        isqrt(n) * isqrt(n) <= n < (isqrt(n) + 1) * (isqrt(n) + 1),
    decreases n,
{
    if n > 0 {
        lemma_isqrt_bounds((n - 1) as nat);
        let r = isqrt((n - 1) as nat);
        if (r + 1) * (r + 1) <= n {
            assert(isqrt(n) == r + 1);
            assert(n < (r + 2) * (r + 2)) by (nonlinear_arith)
                requires n - 1 < (r + 1) * (r + 1), r >= 0;
            let s = isqrt(n);
            assert(s * s <= n < (s + 1) * (s + 1)) by (nonlinear_arith)
                requires s == r + 1, (r + 1) * (r + 1) <= n, n < (r + 2) * (r + 2);
        } else {
            assert(isqrt(n) == r);
            let s = isqrt(n);
            assert(s * s <= n < (s + 1) * (s + 1)) by (nonlinear_arith)
                requires s == r, r * r <= n - 1, n < (r + 1) * (r + 1);
        }
    } else {
        assert(isqrt(n) == 0);
        assert(isqrt(n) * isqrt(n) <= n < (isqrt(n) + 1) * (isqrt(n) + 1)) by (nonlinear_arith)
            requires isqrt(n) == 0, n == 0;
    }
}

/// `isqrt(n)` is the only `r` with `r * r <= n < (r + 1) * (r + 1)`.
proof fn lemma_isqrt_unique(n: nat, r: nat)
    requires
        r * r <= n < (r + 1) * (r + 1),
    ensures
        isqrt(n) == r,
{
    lemma_isqrt_bounds(n);
    let s = isqrt(n);
    if s < r {
        assert((s + 1) * (s + 1) <= r * r) by (nonlinear_arith)
            requires s < r, s >= 0;
    } else if s > r {
        assert((r + 1) * (r + 1) <= s * s) by (nonlinear_arith)
            requires r < s, r >= 0;
    }
}

/// The integer square root of `n`, rounded down.
fn floor_sqrt(n: u128) -> (res: u64)
    requires
        n < 0x4_0000_0000_0000_0000u128,
    ensures
        res == isqrt(n as nat),
{
    let mut lo: u128 = 0;
    let mut hi: u128 = 0x2_0000_0000u128;
    proof {
        assert(hi * hi == 0x4_0000_0000_0000_0000int);
    }
    while hi - lo > 1
        invariant
            lo < hi <= 0x2_0000_0000u128,
            lo * lo <= n < hi * hi,
        decreases hi - lo,
    {
        let mid: u128 = lo + (hi - lo) / 2;
        proof {
            assert(mid * mid <= 0x4_0000_0000_0000_0000int) by (nonlinear_arith)
                requires mid <= 0x2_0000_0000int, mid >= 0;
        }
        if mid * mid <= n {
            lo = mid;
        } else {
            hi = mid;
        }
    }
    proof {
        lemma_isqrt_unique(n as nat, lo as nat);
    }
    lo as u64
}

/// The distance between two positions: the Euclidean distance rounded down.
pub fn distance(a: (u32, u32), b: (u32, u32)) -> (res: u64)
    ensures
        res == dist(a, b),
{
    let dx: u128 = if a.0 >= b.0 { (a.0 - b.0) as u128 } else { (b.0 - a.0) as u128 };
    let dy: u128 = if a.1 >= b.1 { (a.1 - b.1) as u128 } else { (b.1 - a.1) as u128 };
    proof {
        assert(dx * dx <= 0xffff_ffffint * 0xffff_ffffint) by (nonlinear_arith)
            requires dx <= 0xffff_ffffint, dx >= 0;
        assert(dy * dy <= 0xffff_ffffint * 0xffff_ffffint) by (nonlinear_arith)
            requires dy <= 0xffff_ffffint, dy >= 0;
        assert((a.0 - b.0) * (a.0 - b.0) == dx * dx) by (nonlinear_arith)
            requires dx == a.0 - b.0 || dx == b.0 - a.0;
        assert((a.1 - b.1) * (a.1 - b.1) == dy * dy) by (nonlinear_arith)
            requires dy == a.1 - b.1 || dy == b.1 - a.1;
    }
    floor_sqrt(dx * dx + dy * dy)
}

proof fn lemma_nearest_in_range(ts: Seq<Seq<(usize, (u32, u32))>>, c: (u32, u32), n: int)
    requires
        n >= 1,
    ensures
        0 <= nearest(ts, c, n) < n,
    decreases n,
{
    if n > 1 {
        lemma_nearest_in_range(ts, c, n - 1);
    }
}

/// The index of the track whose last position is nearest to `c`, the lowest on a tie.
fn nearest_track(tracks: &Vec<Vec<(usize, (u32, u32))>>, c: (u32, u32)) -> (res: usize)
    requires
        tracks@.len() > 0,
        tracks_nonempty(deep_view(tracks@)),
    ensures
        res == nearest(deep_view(tracks@), c, tracks@.len() as int),
        res < tracks@.len(),
{
    let ghost ts = deep_view(tracks@);
    let first = &tracks[0];
    proof { assert(ts[0].len() > 0); }
    let mut best: usize = 0;
    let mut best_d: u64 = distance(first[first.len() - 1].1, c);
    let mut j: usize = 1;
    while j < tracks.len()
        invariant
            ts == deep_view(tracks@),
            tracks_nonempty(ts),
            1 <= j <= tracks@.len(),
            best == nearest(ts, c, j as int),
            best < j,
            best_d == dist(ts[best as int].last().1, c),
        decreases tracks@.len() - j,
    {
        let t = &tracks[j];
        proof { assert(ts[j as int].len() > 0); }
        let d = distance(t[t.len() - 1].1, c);
        if d < best_d {
            best = j;
            best_d = d;
        }
        j += 1;
    }
    best
}

/// Appends each of `cs`, the centroids of frame `fr`, in order, to the track whose
/// last position is nearest to it.
fn assign_centroids(tracks: &mut Vec<Vec<(usize, (u32, u32))>>, cs: &Vec<(u32, u32)>, fr: usize)
    requires
        tracks_nonempty(deep_view(old(tracks)@)),
    ensures
        deep_view(final(tracks)@) == assign_frame(deep_view(old(tracks)@), cs@, fr, cs@.len() as int),
        tracks_nonempty(deep_view(final(tracks)@)),
{
    if tracks.len() == 0 {
        proof { lemma_assign_frame_no_tracks(deep_view(tracks@), cs@, fr, cs@.len() as int); }
        return;
    }
    let mut i: usize = 0;
    while i < cs.len()
        invariant
            i <= cs@.len(),
            tracks@.len() == old(tracks)@.len(),
            tracks@.len() > 0,
            deep_view(tracks@) == assign_frame(deep_view(old(tracks)@), cs@, fr, i as int),
            tracks_nonempty(deep_view(tracks@)),
        decreases cs@.len() - i,
    {
        let c = cs[i];
        let k = nearest_track(tracks, c);
        let ghost before = deep_view(tracks@);
        tracks[k].push((fr, c));
        proof {
            assert(deep_view(tracks@) =~= before.update(k as int, before[k as int].push((fr, c))));
            assert(deep_view(tracks@) =~= assign(before, c, fr));
            assert forall|j: int| 0 <= j < deep_view(tracks@).len() implies #[trigger] deep_view(tracks@)[j].len() > 0 by {
                assert(before[j].len() > 0);
            }
        }
        i += 1;
    }
}

proof fn lemma_assign_frame_no_tracks(ts: Seq<Seq<(usize, (u32, u32))>>, cs: Seq<(u32, u32)>, fr: usize, n: int)
    requires
        ts.len() == 0,
    ensures
        assign_frame(ts, cs, fr, n) == ts,
    decreases n,
{
    if n > 0 {
        lemma_assign_frame_no_tracks(ts, cs, fr, n - 1);
    }
}

/// Assigns the centroids detected in successive frames to persistent tracks.
/// The first frame's centroids each start a track; every later centroid is
/// appended to the track whose last position is nearest to it.
pub struct Tracker {
    pub tracks: Vec<Vec<(usize, (u32, u32))>>,
    pub frames: usize,
}

impl Tracker {
    /// Every track holds a position, and no track exists before the first frame.
    pub open spec fn wf(&self) -> bool {
        &&& tracks_nonempty(deep_view(self.tracks@))
        &&& self.frames == 0 ==> self.tracks@.len() == 0
    }

    /// The entries of each track: the frame of each detection and its position.
    pub open spec fn paths(&self) -> Seq<Seq<(usize, (u32, u32))>> {
        deep_view(self.tracks@)
    }

    pub fn new() -> (res: Tracker)
        ensures
            res.wf(),
            res.frames == 0,
            res.paths().len() == 0,
    {
        let res = Tracker { tracks: Vec::new(), frames: 0 };
        proof { assert(res.paths() =~= Seq::<Seq<(usize, (u32, u32))>>::empty()); }
        res
    }

    /// Processes the centroids of the next frame.
    pub fn process_frame(&mut self, cs: &Vec<(u32, u32)>)
        requires
            old(self).wf(),
            old(self).frames < usize::MAX,
        ensures
            final(self).wf(),
            final(self).frames == old(self).frames + 1,
            final(self).paths() == (if old(self).frames == 0 {
                bootstrap(cs@)
            } else {
                assign_frame(old(self).paths(), cs@, old(self).frames, cs@.len() as int)
            }),
            old(self).frames > 0 ==> final(self).paths().len() == old(self).paths().len(),
            forall|j: int| 0 <= j < old(self).paths().len() ==>
                old(self).paths()[j].len() <= #[trigger] final(self).paths()[j].len(),
    {
        proof { lemma_assign_frame_grows(self.paths(), cs@, self.frames, cs@.len() as int); }
        if self.frames == 0 {
            let mut tracks: Vec<Vec<(usize, (u32, u32))>> = Vec::with_capacity(cs.len());
            let mut i: usize = 0;
            while i < cs.len()
                invariant
                    i <= cs@.len(),
                    deep_view(tracks@) == bootstrap(cs@).take(i as int),
                decreases cs@.len() - i,
            {
                let mut t: Vec<(usize, (u32, u32))> = Vec::new();
                t.push((0, cs[i]));
                let ghost before = deep_view(tracks@);
                tracks.push(t);
                proof {
                    assert(t@ =~= seq![(0usize, cs@[i as int])]);
                    assert(deep_view(tracks@) =~= before.push(t@));
                    assert(deep_view(tracks@) =~= bootstrap(cs@).take(i as int + 1));
                }
                i += 1;
            }
            proof {
                assert(bootstrap(cs@).take(cs@.len() as int) =~= bootstrap(cs@));
            }
            self.tracks = tracks;
        } else {
            assign_centroids(&mut self.tracks, cs, self.frames);
        }
        self.frames = self.frames + 1;
    }
}

/// The tracks built from the centroid lists of successive frames.
pub fn track_centroids(frames: &Vec<Vec<(u32, u32)>>) -> (res: Vec<Vec<(usize, (u32, u32))>>)
    ensures
        deep_view(res@) == track_frames(deep_view(frames@)),
{
    let mut tracker = Tracker::new();
    let mut f: usize = 0;
    while f < frames.len()
        invariant
            f <= frames@.len(),
            tracker.wf(),
            tracker.frames == f,
            tracker.paths() == track_frames(deep_view(frames@).take(f as int)),
        decreases frames@.len() - f,
    {
        let ghost prefix = deep_view(frames@).take(f as int + 1);
        proof {
            assert(prefix.drop_last() =~= deep_view(frames@).take(f as int));
            assert(prefix.last() == frames@[f as int]@);
            if f == 0 {
                assert(deep_view(frames@).take(0) =~= Seq::<Seq<(u32, u32)>>::empty());
            }
        }
        tracker.process_frame(&frames[f]);
        f += 1;
    }
    proof { assert(deep_view(frames@).take(frames@.len() as int) =~= deep_view(frames@)); }
    tracker.tracks
}

/// The track that the `i`-th centroid of frame `fr` joins.
pub open spec fn target(ts: Seq<Seq<(usize, (u32, u32))>>, cs: Seq<(u32, u32)>, fr: usize, i: int) -> int {
    nearest(assign_frame(ts, cs, fr, i), cs[i], ts.len() as int)
}

/// No two centroids of the frame join the same track.
pub open spec fn targets_distinct(ts: Seq<Seq<(usize, (u32, u32))>>, cs: Seq<(u32, u32)>, fr: usize) -> bool {
    forall|i1: int, i2: int| 0 <= i1 < i2 < cs.len() ==> target(ts, cs, fr, i1) != target(ts, cs, fr, i2)
}

/// Assigning centroids keeps the number of tracks, and no track gets shorter.
pub proof fn lemma_assign_frame_grows(ts: Seq<Seq<(usize, (u32, u32))>>, cs: Seq<(u32, u32)>, fr: usize, n: int)
    requires
        0 <= n <= cs.len(),
    ensures
        assign_frame(ts, cs, fr, n).len() == ts.len(),
        forall|j: int| 0 <= j < ts.len() ==> ts[j].len() <= #[trigger] assign_frame(ts, cs, fr, n)[j].len(),
    decreases n,
{
    if n > 0 {
        lemma_assign_frame_grows(ts, cs, fr, n - 1);
        let prev = assign_frame(ts, cs, fr, n - 1);
        if prev.len() > 0 {
            lemma_nearest_in_range(prev, cs[n - 1], prev.len() as int);
            assert forall|j: int| 0 <= j < ts.len() implies ts[j].len() <= #[trigger] assign_frame(ts, cs, fr, n)[j].len() by {
                assert(ts[j].len() <= prev[j].len());
            }
        }
    }
}

proof fn lemma_assign_frame_distinct(ts: Seq<Seq<(usize, (u32, u32))>>, cs: Seq<(u32, u32)>, fr: usize, n: int)
    requires
        0 <= n <= cs.len(),
        targets_distinct(ts, cs, fr),
    ensures
        forall|j: int| 0 <= j < ts.len() ==> #[trigger] assign_frame(ts, cs, fr, n)[j].len() <= ts[j].len() + 1,
        forall|j: int| 0 <= j < ts.len() && #[trigger] assign_frame(ts, cs, fr, n)[j].len() == ts[j].len() + 1 ==>
            exists|i: int| 0 <= i < n && target(ts, cs, fr, i) == j,
    decreases n,
{
    lemma_assign_frame_grows(ts, cs, fr, n);
    if n > 0 {
        lemma_assign_frame_distinct(ts, cs, fr, n - 1);
        lemma_assign_frame_grows(ts, cs, fr, n - 1);
        let prev = assign_frame(ts, cs, fr, n - 1);
        let cur = assign_frame(ts, cs, fr, n);
        if prev.len() > 0 {
            let t = target(ts, cs, fr, n - 1);
            lemma_nearest_in_range(prev, cs[n - 1], prev.len() as int);
            assert(cur == prev.update(t, prev[t].push((fr, cs[n - 1]))));
            if prev[t].len() == ts[t].len() + 1 {
                let i = choose|i: int| 0 <= i < n - 1 && target(ts, cs, fr, i) == t;
                assert(target(ts, cs, fr, i) != target(ts, cs, fr, n - 1));
            }
            assert forall|j: int| 0 <= j < ts.len() implies #[trigger] cur[j].len() <= ts[j].len() + 1 by {
                assert(prev[j].len() <= ts[j].len() + 1);
            }
            assert forall|j: int| 0 <= j < ts.len() && #[trigger] cur[j].len() == ts[j].len() + 1 implies
                exists|i: int| 0 <= i < n && target(ts, cs, fr, i) == j by {
                if j == t {
                    assert(target(ts, cs, fr, n - 1) == j);
                } else {
                    assert(prev[j].len() == ts[j].len() + 1);
                    let i = choose|i: int| 0 <= i < n - 1 && target(ts, cs, fr, i) == j;
                    assert(0 <= i < n && target(ts, cs, fr, i) == j);
                }
            }
        }
    }
}

/// After the first frame, every centroid starts a track of its own: as many
/// tracks as centroids, each holding exactly its centroid.
pub proof fn lemma_bootstrap_track_count(f0: Seq<(u32, u32)>)
    ensures
        track_frames(seq![f0]).len() == f0.len(),
        forall|j: int| 0 <= j < f0.len() ==> #[trigger] track_frames(seq![f0])[j] == seq![(0usize, f0[j])],
        forall|j: int| 0 <= j < f0.len() ==> #[trigger] track_frames(seq![f0])[j].len() == 1,
{
}

/// Processing one more frame keeps the number of tracks and shortens none of them.
pub proof fn lemma_track_lengths_non_decreasing(frames: Seq<Seq<(u32, u32)>>)
    requires
        frames.len() >= 2,
    ensures
        track_frames(frames).len() == track_frames(frames.drop_last()).len(),
        forall|j: int| 0 <= j < track_frames(frames).len() ==>
            track_frames(frames.drop_last())[j].len() <= #[trigger] track_frames(frames)[j].len(),
{
    lemma_assign_frame_grows(track_frames(frames.drop_last()), frames.last(), (frames.len() - 1) as usize, frames.last().len() as int);
}

/// No track is longer than the number of frames processed, as long as no two
/// centroids of one frame join the same track.
pub proof fn lemma_track_length_bounded(frames: Seq<Seq<(u32, u32)>>)
    requires
        forall|f: int| 1 <= f < frames.len() ==>
            #[trigger] targets_distinct(track_frames(frames.take(f)), frames[f], f as usize),
    ensures
        forall|j: int| 0 <= j < track_frames(frames).len() ==> #[trigger] track_frames(frames)[j].len() <= frames.len(),
    decreases frames.len(),
{
    if frames.len() >= 2 {
        let prev = frames.drop_last();
        assert forall|f: int| 1 <= f < prev.len() implies
            #[trigger] targets_distinct(track_frames(prev.take(f)), prev[f], f as usize) by {
            assert(prev.take(f) =~= frames.take(f));
            assert(targets_distinct(track_frames(frames.take(f)), frames[f], f as usize));
        }
        lemma_track_length_bounded(prev);
        let f = frames.len() - 1;
        assert(frames.take(f) =~= prev);
        assert(targets_distinct(track_frames(frames.take(f)), frames[f], f as usize));
        let ts = track_frames(prev);
        let cs = frames.last();
        lemma_assign_frame_grows(ts, cs, f as usize, cs.len() as int);
        lemma_assign_frame_distinct(ts, cs, f as usize, cs.len() as int);
        assert forall|j: int| 0 <= j < track_frames(frames).len() implies #[trigger] track_frames(frames)[j].len() <= frames.len() by {
            assert(ts[j].len() <= prev.len());
            assert(assign_frame(ts, cs, f as usize, cs.len() as int)[j].len() <= ts[j].len() + 1);
        }
    }
}

} // verus!
