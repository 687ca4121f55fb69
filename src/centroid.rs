use vstd::prelude::*;

verus! {

/// The sum of the x coordinates of `s`.
pub open spec fn sum_x(s: Seq<(u32, u32)>) -> int
    decreases s.len(),
{
    if s.len() == 0 { 0 } else { sum_x(s.drop_last()) + s.last().0 }
}

/// The sum of the y coordinates of `s`.
pub open spec fn sum_y(s: Seq<(u32, u32)>) -> int
    decreases s.len(),
{
    if s.len() == 0 { 0 } else { sum_y(s.drop_last()) + s.last().1 }
}

/// The mean position of the non-empty `s`, each coordinate rounded down.
pub open spec fn centroid_of(s: Seq<(u32, u32)>) -> (int, int) {
    (sum_x(s) / s.len() as int, sum_y(s) / s.len() as int)
}

proof fn lemma_sum_bounds(s: Seq<(u32, u32)>, lo_x: int, hi_x: int, lo_y: int, hi_y: int)
    requires
        forall|a: int| 0 <= a < s.len() ==> lo_x <= (#[trigger] s[a]).0 <= hi_x && lo_y <= s[a].1 <= hi_y,
    ensures
        s.len() * lo_x <= sum_x(s) <= s.len() * hi_x,
        s.len() * lo_y <= sum_y(s) <= s.len() * hi_y,
    decreases s.len(),
{
    if s.len() > 0 {
        let t = s.drop_last();
        assert forall|a: int| 0 <= a < t.len() implies lo_x <= (#[trigger] t[a]).0 <= hi_x && lo_y <= t[a].1 <= hi_y by {
            assert(t[a] == s[a]);
        }
        lemma_sum_bounds(t, lo_x, hi_x, lo_y, hi_y);
        let n = t.len() as int;
        assert(s.last() == s[n]);
        assert((n + 1) * lo_x == n * lo_x + lo_x && (n + 1) * hi_x == n * hi_x + hi_x
            && (n + 1) * lo_y == n * lo_y + lo_y && (n + 1) * hi_y == n * hi_y + hi_y) by (nonlinear_arith);
    }
}

proof fn lemma_mean_between(total: int, n: int, lo: int, hi: int)
    requires
        n > 0,
        n * lo <= total <= n * hi,
    ensures
        lo <= total / n <= hi,
{
    assert(lo <= total / n) by (nonlinear_arith)
        requires n > 0, n * lo <= total;
    assert(total / n <= hi) by (nonlinear_arith)
        requires n > 0, total <= n * hi;
}

/// Each coordinate of a cluster's centroid lies within the cluster's axis-aligned
/// bounding box: any bounds that hold of every member hold of the centroid.
pub proof fn lemma_centroid_in_bounding_box(s: Seq<(u32, u32)>, lo_x: int, hi_x: int, lo_y: int, hi_y: int)
    requires
        s.len() > 0,
        forall|a: int| 0 <= a < s.len() ==> lo_x <= (#[trigger] s[a]).0 <= hi_x && lo_y <= s[a].1 <= hi_y,
    ensures
        lo_x <= centroid_of(s).0 <= hi_x,
        lo_y <= centroid_of(s).1 <= hi_y,
{
    lemma_sum_bounds(s, lo_x, hi_x, lo_y, hi_y);
    lemma_mean_between(sum_x(s), s.len() as int, lo_x, hi_x);
    lemma_mean_between(sum_y(s), s.len() as int, lo_y, hi_y);
}

/// The centroid of a non-empty cluster: the mean x and mean y of its members,
/// each rounded down.
pub fn centroid(cluster: &Vec<(u32, u32)>) -> (res: (u32, u32))
    requires
        cluster@.len() > 0,
    ensures
        res.0 == centroid_of(cluster@).0,
        res.1 == centroid_of(cluster@).1,
{
    let mut sx: u128 = 0;
    let mut sy: u128 = 0;
    let mut i: usize = 0;
    while i < cluster.len()
        invariant
            i <= cluster@.len(),
            sx == sum_x(cluster@.take(i as int)),
            sy == sum_y(cluster@.take(i as int)),
            sx <= i * 0xffff_ffffu128,
            sy <= i * 0xffff_ffffu128,
        decreases cluster@.len() - i,
    {
        let (px, py) = cluster[i];
        proof {
            let t = cluster@.take(i as int + 1);
            assert(t.drop_last() =~= cluster@.take(i as int));
            assert(i < 0x1_0000_0000_0000_0000int);
            assert((i + 1) * 0xffff_ffffint == i * 0xffff_ffffint + 0xffff_ffffint) by (nonlinear_arith);
            assert(i * 0xffff_ffffint < 0x1_0000_0000_0000_0000_0000_0000int) by (nonlinear_arith)
                requires i < 0x1_0000_0000_0000_0000int;
        }
        sx = sx + px as u128;
        sy = sy + py as u128;
        i += 1;
    }
    proof {
        assert(cluster@.take(cluster@.len() as int) =~= cluster@);
        lemma_centroid_in_bounding_box(cluster@, 0, 0xffff_ffff, 0, 0xffff_ffff);
    }
    let n = cluster.len() as u128;
    ((sx / n) as u32, (sy / n) as u32)
}

/// The centroid of each cluster, in the order of the clusters.
pub fn centroids(clusters: &Vec<Vec<(u32, u32)>>) -> (res: Vec<(u32, u32)>)
    requires
        forall|c: int| 0 <= c < clusters@.len() ==> #[trigger] clusters@[c]@.len() > 0,
    ensures
        res@.len() == clusters@.len(),
        forall|c: int| 0 <= c < res@.len() ==>
            (#[trigger] res@[c]).0 == centroid_of(clusters@[c]@).0 && res@[c].1 == centroid_of(clusters@[c]@).1,
{
    let mut out: Vec<(u32, u32)> = Vec::with_capacity(clusters.len());
    let mut c: usize = 0;
    while c < clusters.len()
        invariant
            c <= clusters@.len(),
            forall|k: int| 0 <= k < clusters@.len() ==> #[trigger] clusters@[k]@.len() > 0,
            out@.len() == c,
            forall|k: int| 0 <= k < c ==>
                (#[trigger] out@[k]).0 == centroid_of(clusters@[k]@).0 && out@[k].1 == centroid_of(clusters@[k]@).1,
        decreases clusters@.len() - c,
    {
        let p = centroid(&clusters[c]);
        out.push(p);
        c += 1;
    }
    out
}

} // verus!
