use vstd::prelude::*;
use crate::color::{foreground, foreground_color};
use crate::frame::{Frame, index_of, lemma_index_in_range};

verus! {

/// The neighborhood radius used when none is configured.
pub const DEFAULT_RADIUS: u32 = 2;

/// The contents of each cluster.
pub open spec fn deep_view<T>(cs: Seq<Vec<T>>) -> Seq<Seq<T>> {
    cs.map_values(|c: Vec<T>| c@)
}

/// `cs` partitions the foreground pixels of `f`: every cluster is non-empty,
/// holds foreground pixels only, no pixel appears twice anywhere, and every
/// foreground pixel appears somewhere.
pub open spec fn partitions_foreground(f: Frame, cs: Seq<Seq<(u32, u32)>>) -> bool {
    &&& forall|c: int| 0 <= c < cs.len() ==> #[trigger] cs[c].len() > 0
    &&& members_claimed(f, cs)
    &&& all_distinct(cs)
    &&& forall|x: int, y: int| #[trigger] f.is_foreground(x, y) ==>
            exists|c: int, a: int| 0 <= c < cs.len() && 0 <= a < cs[c].len() && #[trigger] cs[c][a] == (x as u32, y as u32)
}

/// Every member is an in-bounds foreground pixel.
pub open spec fn members_claimed(f: Frame, cs: Seq<Seq<(u32, u32)>>) -> bool {
    forall|c: int, a: int| 0 <= c < cs.len() && 0 <= a < cs[c].len() ==>
        f.is_foreground(#[trigger] cs[c][a].0 as int, cs[c][a].1 as int)
}

/// No position occurs at two places of `cs`.
pub open spec fn all_distinct(cs: Seq<Seq<(u32, u32)>>) -> bool {
    forall|c1: int, a1: int, c2: int, a2: int|
        0 <= c1 < cs.len() && 0 <= a1 < cs[c1].len() && 0 <= c2 < cs.len() && 0 <= a2 < cs[c2].len()
            && #[trigger] cs[c1][a1] == #[trigger] cs[c2][a2] ==> c1 == c2 && a1 == a2
}

/// The state of the search: members are visited foreground pixels, no member
/// repeats, and every visited foreground pixel is a member.
pub open spec fn search_inv(f: Frame, visited: Seq<bool>, cs: Seq<Seq<(u32, u32)>>) -> bool {
    &&& f.wf()
    &&& visited.len() == f.width * f.height
    &&& members_claimed(f, cs)
    &&& all_distinct(cs)
    &&& forall|c: int, a: int| 0 <= c < cs.len() && 0 <= a < cs[c].len() ==>
            visited[index_of(f.width as int, #[trigger] cs[c][a].0 as int, cs[c][a].1 as int)]
    &&& forall|x: int, y: int| f.is_foreground(x, y) && #[trigger] visited[index_of(f.width as int, x, y)] ==>
            exists|c: int, a: int| 0 <= c < cs.len() && 0 <= a < cs[c].len() && #[trigger] cs[c][a] == (x as u32, y as u32)
}

/// `(x, y)` lies in the square neighborhood `[-r, r)` of `p`.
pub open spec fn is_neighbor(p: (u32, u32), x: int, y: int, r: int) -> bool {
    -r <= x - p.0 < r && -r <= y - p.1 < r
}

/// `(x, y)` comes before `p` in the scan: by column, then by row.
pub open spec fn scan_before(x: int, y: int, p: (u32, u32)) -> bool {
    x < p.0 || (x == p.0 && y < p.1)
}

/// `(x, y)` is a member of one of the clusters `0..=c`.
pub open spec fn listed_upto(cs: Seq<Seq<(u32, u32)>>, c: int, x: int, y: int) -> bool {
    exists|c2: int, a: int| 0 <= c2 <= c && 0 <= a < cs[c2].len() && #[trigger] cs[c2][a] == (x as u32, y as u32)
}

/// Each member of `s` but its first lies in the neighborhood of an earlier member.
pub open spec fn linked(s: Seq<(u32, u32)>, r: int) -> bool {
    forall|a: int| 0 < a < s.len() ==> #[trigger] has_earlier_neighbor(s, a, r)
}

/// Member `a` of `s` lies in the neighborhood of a member before it.
pub open spec fn has_earlier_neighbor(s: Seq<(u32, u32)>, a: int, r: int) -> bool {
    exists|a2: int| 0 <= a2 < a && #[trigger] is_neighbor(s[a2], s[a].0 as int, s[a].1 as int, r)
}

/// Every foreground pixel in the neighborhood of a member of cluster `c` belongs
/// to cluster `c` or to an earlier one.
pub open spec fn closed(f: Frame, cs: Seq<Seq<(u32, u32)>>, c: int, r: int) -> bool {
    forall|a: int, x: int, y: int| 0 <= a < cs[c].len() && #[trigger] is_neighbor(cs[c][a], x, y, r)
        && f.is_foreground(x, y) ==> listed_upto(cs, c, x, y)
}

/// Every foreground pixel scanned before the first member of cluster `c` belongs
/// to an earlier cluster.
pub open spec fn seeded(f: Frame, cs: Seq<Seq<(u32, u32)>>, c: int) -> bool {
    forall|x: int, y: int| #[trigger] f.is_foreground(x, y) && scan_before(x, y, cs[c][0]) ==> listed_upto(cs, c - 1, x, y)
}

/// Cluster `c` was grown from its first member, the first foreground pixel of the
/// scan that no earlier cluster holds, through the neighborhoods of its members.
pub open spec fn grown(f: Frame, cs: Seq<Seq<(u32, u32)>>, c: int, r: int) -> bool {
    linked(cs[c], r) && closed(f, cs, c, r) && seeded(f, cs, c)
}

/// Every cluster was grown by the neighborhood search of radius `r`.
pub open spec fn all_grown(f: Frame, cs: Seq<Seq<(u32, u32)>>, r: int) -> bool {
    forall|c: int| 0 <= c < cs.len() ==> #[trigger] grown(f, cs, c, r)
}

/// `cs2` holds the clusters of `cs`, each possibly with more members after its own.
pub open spec fn extends(cs2: Seq<Seq<(u32, u32)>>, cs: Seq<Seq<(u32, u32)>>) -> bool {
    &&& cs.len() <= cs2.len()
    &&& forall|c: int| 0 <= c < cs.len() ==> cs[c].len() <= #[trigger] cs2[c].len()
    &&& forall|c: int, a: int| 0 <= c < cs.len() && 0 <= a < cs[c].len() ==> #[trigger] cs2[c][a] == cs[c][a]
}

/// Every in-bounds pixel in the neighborhood of `p` is visited.
pub open spec fn expanded(f: Frame, v: Seq<bool>, p: (u32, u32), r: int) -> bool {
    forall|x: int, y: int| f.in_bounds(x, y) && #[trigger] is_neighbor(p, x, y, r) ==> v[index_of(f.width as int, x, y)]
}

/// The stack holds members of the cluster, and each member is on the stack or expanded.
pub open spec fn stack_inv(f: Frame, v: Seq<bool>, cluster: Seq<(u32, u32)>, stack: Seq<(u32, u32)>, r: int) -> bool {
    &&& forall|k: int| 0 <= k < stack.len() ==> cluster.contains(#[trigger] stack[k])
    &&& forall|a: int| 0 <= a < cluster.len() ==> stack.contains(#[trigger] cluster[a]) || expanded(f, v, cluster[a], r)
}

proof fn lemma_listed_extends(cs: Seq<Seq<(u32, u32)>>, cs2: Seq<Seq<(u32, u32)>>, c: int, x: int, y: int)
    requires
        extends(cs2, cs),
        c < cs.len(),
        listed_upto(cs, c, x, y),
    ensures
        listed_upto(cs2, c, x, y),
{
    let (c2, a) = choose|c2: int, a: int| 0 <= c2 <= c && 0 <= a < cs[c2].len() && #[trigger] cs[c2][a] == (x as u32, y as u32);
    assert(cs2[c2][a] == cs[c2][a]);
}

/// Extending the last cluster keeps what holds of the others, and keeps the
/// last one seeded.
proof fn lemma_grown_extends(f: Frame, cs: Seq<Seq<(u32, u32)>>, cs2: Seq<Seq<(u32, u32)>>, n: int, r: int)
    requires
        extends(cs2, cs),
        0 <= n <= cs.len(),
        forall|c: int| 0 <= c < n ==> #[trigger] cs2[c] == cs[c],
        forall|c: int| 0 <= c < n ==> #[trigger] grown(f, cs, c, r),
        forall|c: int| 0 <= c < cs.len() ==> cs[c].len() > 0 && #[trigger] seeded(f, cs, c),
    ensures
        forall|c: int| 0 <= c < n ==> #[trigger] grown(f, cs2, c, r),
        forall|c: int| 0 <= c < cs.len() ==> #[trigger] seeded(f, cs2, c),
{
    assert forall|c: int| 0 <= c < n implies #[trigger] grown(f, cs2, c, r) by {
        assert(grown(f, cs, c, r));
        assert forall|a: int, x: int, y: int| 0 <= a < cs2[c].len() && #[trigger] is_neighbor(cs2[c][a], x, y, r)
            && f.is_foreground(x, y) implies listed_upto(cs2, c, x, y) by {
            assert(is_neighbor(cs[c][a], x, y, r));
            lemma_listed_extends(cs, cs2, c, x, y);
        }
        assert forall|x: int, y: int| #[trigger] f.is_foreground(x, y) && scan_before(x, y, cs2[c][0]) implies
            listed_upto(cs2, c - 1, x, y) by {
            assert(seeded(f, cs, c));
            lemma_listed_extends(cs, cs2, c - 1, x, y);
        }
    }
    assert forall|c: int| 0 <= c < cs.len() implies #[trigger] seeded(f, cs2, c) by {
        assert(seeded(f, cs, c));
        assert(cs[c].len() > 0);
        assert(cs2[c][0] == cs[c][0]);
        assert forall|x: int, y: int| #[trigger] f.is_foreground(x, y) && scan_before(x, y, cs2[c][0]) implies
            listed_upto(cs2, c - 1, x, y) by {
            lemma_listed_extends(cs, cs2, c - 1, x, y);
        }
    }
}

/// The number of pixels not yet visited.
pub open spec fn unvisited(v: Seq<bool>) -> nat
    decreases v.len(),
{
    if v.len() == 0 {
        0
    } else {
        unvisited(v.drop_last()) + if v.last() { 0nat } else { 1nat }
    }
}

proof fn lemma_mark_unvisited(v: Seq<bool>, i: int)
    requires
        0 <= i < v.len(),
        !v[i],
    ensures
        unvisited(v.update(i, true)) + 1 == unvisited(v),
    decreases v.len(),
{
    let u = v.update(i, true);
    if i == v.len() - 1 {
        assert(u.drop_last() =~= v.drop_last());
    } else {
        assert(u.drop_last() =~= v.drop_last().update(i, true));
        lemma_mark_unvisited(v.drop_last(), i);
    }
}

/// Two in-bounds positions with the same index are the same position.
proof fn lemma_index_injective(width: int, height: int, x1: int, y1: int, x2: int, y2: int)
    requires
        0 <= x1 < width,
        0 <= y1 < height,
        0 <= x2 < width,
        0 <= y2 < height,
        index_of(width, x1, y1) == index_of(width, x2, y2),
    ensures
        x1 == x2 && y1 == y2,
{
    assert(y1 == y2) by (nonlinear_arith)
        requires
            0 <= x1 < width, 0 <= x2 < width, 0 <= y1, 0 <= y2,
            y1 * width + x1 == y2 * width + x2;
}

/// Visiting a background pixel keeps the search state.
proof fn lemma_visit_background(f: Frame, visited: Seq<bool>, cs: Seq<Seq<(u32, u32)>>, x: int, y: int)
    requires
        search_inv(f, visited, cs),
        f.in_bounds(x, y),
        !f.is_foreground(x, y),
    ensures
        search_inv(f, visited.update(index_of(f.width as int, x, y), true), cs),
{
    let w = f.width as int;
    let i = index_of(w, x, y);
    lemma_index_in_range(w, f.height as int, x, y);
    let v2 = visited.update(i, true);
    assert forall|c: int, a: int| 0 <= c < cs.len() && 0 <= a < cs[c].len() implies
        v2[index_of(w, #[trigger] cs[c][a].0 as int, cs[c][a].1 as int)] by {
        let m = cs[c][a];
        lemma_index_in_range(w, f.height as int, m.0 as int, m.1 as int);
    }
    assert forall|x2: int, y2: int| f.is_foreground(x2, y2) && #[trigger] v2[index_of(w, x2, y2)] implies
        exists|c: int, a: int| 0 <= c < cs.len() && 0 <= a < cs[c].len() && #[trigger] cs[c][a] == (x2 as u32, y2 as u32) by {
        lemma_index_in_range(w, f.height as int, x2, y2);
        if index_of(w, x2, y2) == i {
            lemma_index_injective(w, f.height as int, x, y, x2, y2);
        } else {
            assert(visited[index_of(w, x2, y2)]);
        }
    }
}

/// Visiting an unvisited foreground pixel and adding it to the last cluster
/// keeps the search state.
proof fn lemma_visit_foreground(f: Frame, visited: Seq<bool>, cs: Seq<Seq<(u32, u32)>>, x: int, y: int)
    requires
        search_inv(f, visited, cs),
        cs.len() > 0,
        f.is_foreground(x, y),
        !visited[index_of(f.width as int, x, y)],
    ensures
        search_inv(
            f,
            visited.update(index_of(f.width as int, x, y), true),
            cs.update(cs.len() - 1, cs[cs.len() - 1].push((x as u32, y as u32))),
        ),
{
    let w = f.width as int;
    let i = index_of(w, x, y);
    lemma_index_in_range(w, f.height as int, x, y);
    let v2 = visited.update(i, true);
    let last = cs.len() - 1;
    let p = (x as u32, y as u32);
    let cs2 = cs.update(last, cs[last].push(p));
    assert forall|c: int, a: int| 0 <= c < cs2.len() && 0 <= a < cs2[c].len() && !(c == last && a == cs[last].len())
        implies #[trigger] cs2[c][a] == cs[c][a] by {}
    assert forall|c: int, a: int| 0 <= c < cs2.len() && 0 <= a < cs2[c].len() implies
        f.is_foreground(#[trigger] cs2[c][a].0 as int, cs2[c][a].1 as int)
        && v2[index_of(w, cs2[c][a].0 as int, cs2[c][a].1 as int)]
        && (cs2[c][a] != p || (c == last && a == cs[last].len())) by {
        if !(c == last && a == cs[last].len()) {
            let m = cs[c][a];
            assert(visited[index_of(w, m.0 as int, m.1 as int)]);
            lemma_index_in_range(w, f.height as int, m.0 as int, m.1 as int);
        }
    }
    assert forall|x2: int, y2: int| f.is_foreground(x2, y2) && #[trigger] v2[index_of(w, x2, y2)] implies
        exists|c: int, a: int| 0 <= c < cs2.len() && 0 <= a < cs2[c].len() && #[trigger] cs2[c][a] == (x2 as u32, y2 as u32) by {
        lemma_index_in_range(w, f.height as int, x2, y2);
        if index_of(w, x2, y2) == i {
            lemma_index_injective(w, f.height as int, x, y, x2, y2);
            assert(cs2[last][cs[last].len() as int] == p);
        } else {
            assert(visited[index_of(w, x2, y2)]);
            let (c, a) = choose|c: int, a: int| 0 <= c < cs.len() && 0 <= a < cs[c].len() && #[trigger] cs[c][a] == (x2 as u32, y2 as u32);
            assert(cs2[c][a] == cs[c][a]);
        }
    }
    assert(members_claimed(f, cs2));
    assert forall|c1: int, a1: int, c2: int, a2: int|
        0 <= c1 < cs2.len() && 0 <= a1 < cs2[c1].len() && 0 <= c2 < cs2.len() && 0 <= a2 < cs2[c2].len()
            && #[trigger] cs2[c1][a1] == #[trigger] cs2[c2][a2] implies c1 == c2 && a1 == a2 by {
        let n1 = c1 == last && a1 == cs[last].len();
        let n2 = c2 == last && a2 == cs[last].len();
        if !n1 && !n2 {
            assert(cs2[c1][a1] == cs[c1][a1]);
            assert(cs2[c2][a2] == cs[c2][a2]);
        } else if n1 && !n2 {
            let m = cs[c2][a2];
            assert(cs2[c2][a2] == m);
            assert(visited[index_of(w, m.0 as int, m.1 as int)]);
        } else if !n1 && n2 {
            let m = cs[c1][a1];
            assert(cs2[c1][a1] == m);
            assert(visited[index_of(w, m.0 as int, m.1 as int)]);
        }
    }
    assert forall|c: int, a: int| 0 <= c < cs2.len() && 0 <= a < cs2[c].len() implies
        v2[index_of(w, #[trigger] cs2[c][a].0 as int, cs2[c][a].1 as int)] by {
        assert(f.is_foreground(cs2[c][a].0 as int, cs2[c][a].1 as int)
        && v2[index_of(w, cs2[c][a].0 as int, cs2[c][a].1 as int)]);
    }
}

/// Opening a new, empty cluster keeps the search state.
proof fn lemma_open_cluster(f: Frame, visited: Seq<bool>, cs: Seq<Seq<(u32, u32)>>)
    requires
        search_inv(f, visited, cs),
    ensures
        search_inv(f, visited, cs.push(Seq::<(u32, u32)>::empty())),
{
    let cs2 = cs.push(Seq::<(u32, u32)>::empty());
    assert forall|c: int| 0 <= c < cs.len() implies #[trigger] cs2[c] == cs[c] by {}
    assert forall|x: int, y: int| f.is_foreground(x, y) && #[trigger] visited[index_of(f.width as int, x, y)] implies
        exists|c: int, a: int| 0 <= c < cs2.len() && 0 <= a < cs2[c].len() && #[trigger] cs2[c][a] == (x as u32, y as u32) by {
        let (c, a) = choose|c: int, a: int| 0 <= c < cs.len() && 0 <= a < cs[c].len() && #[trigger] cs[c][a] == (x as u32, y as u32);
        assert(cs2[c][a] == cs[c][a]);
    }
}

fn pixel_index(f: &Frame, x: u32, y: u32) -> (res: usize)
    requires
        f.wf(),
        f.in_bounds(x as int, y as int),
    ensures
        res == index_of(f.width as int, x as int, y as int),
        res < f.pixels@.len(),
{
    let len: usize = f.pixels.len();
    proof {
        lemma_index_in_range(f.width as int, f.height as int, x as int, y as int);
        assert((y as int) * (f.width as int) <= len);
    }
    (y as usize) * (f.width as usize) + (x as usize)
}

/// A pixel that was expanded stays expanded as more pixels are visited.
proof fn lemma_expanded_monotone(f: Frame, v: Seq<bool>, v2: Seq<bool>, p: (u32, u32), r: int)
    requires
        f.wf(),
        v.len() == f.width * f.height,
        v2.len() == v.len(),
        forall|i: int| 0 <= i < v.len() && v[i] ==> #[trigger] v2[i],
        expanded(f, v, p, r),
    ensures
        expanded(f, v2, p, r),
{
    assert forall|x: int, y: int| f.in_bounds(x, y) && #[trigger] is_neighbor(p, x, y, r) implies
        v2[index_of(f.width as int, x, y)] by {
        lemma_index_in_range(f.width as int, f.height as int, x, y);
    }
}

/// Visits the square neighborhood `[-radius, radius)` of `(lx, ly)`: each unvisited
/// in-bounds pixel there is marked visited, and each such foreground pixel joins the
/// cluster and the stack.
fn visit_neighbors(
    f: &Frame,
    radius: u32,
    lx: u32,
    ly: u32,
    visited: &mut Vec<bool>,
    cluster: &mut Vec<(u32, u32)>,
    stack: &mut Vec<(u32, u32)>,
    Ghost(done): Ghost<Seq<Seq<(u32, u32)>>>,
)
    requires
        search_inv(*f, old(visited)@, done.push(old(cluster)@)),
        old(cluster)@.contains((lx, ly)),
        linked(old(cluster)@, radius as int),
    ensures
        search_inv(*f, final(visited)@, done.push(final(cluster)@)),
        final(visited)@.len() == old(visited)@.len(),
        forall|i: int| 0 <= i < old(visited)@.len() && old(visited)@[i] ==> #[trigger] final(visited)@[i],
        final(cluster)@.len() >= old(cluster)@.len(),
        2 * unvisited(final(visited)@) + final(stack)@.len() <= 2 * unvisited(old(visited)@) + old(stack)@.len(),
        linked(final(cluster)@, radius as int),
        expanded(*f, final(visited)@, (lx, ly), radius as int),
        final(stack)@.len() >= old(stack)@.len(),
        forall|a: int| 0 <= a < old(cluster)@.len() ==> #[trigger] final(cluster)@[a] == old(cluster)@[a],
        forall|k: int| 0 <= k < old(stack)@.len() ==> #[trigger] final(stack)@[k] == old(stack)@[k],
        final(stack)@.len() - old(stack)@.len() == final(cluster)@.len() - old(cluster)@.len(),
        forall|a: int| old(cluster)@.len() <= a < final(cluster)@.len() ==>
            #[trigger] final(cluster)@[a] == final(stack)@[old(stack)@.len() + a - old(cluster)@.len()],
{
    let w = f.width;
    let h = f.height;
    let r: i64 = radius as i64;
    let ghost ri = radius as int;
    let ghost p = (lx, ly);
    let ghost ap = choose|a: int| 0 <= a < old(cluster)@.len() && old(cluster)@[a] == p;
    let mut di: i64 = 0;
    while di < 2 * r
        invariant
            r == radius as i64,
            ri == radius as int,
            w == f.width,
            h == f.height,
            0 <= di,
            0 <= ap < old(cluster)@.len(),
            old(cluster)@[ap] == p,
            p == (lx, ly),
            search_inv(*f, visited@, done.push(cluster@)),
            visited@.len() == old(visited)@.len(),
            forall|i: int| 0 <= i < old(visited)@.len() && old(visited)@[i] ==> #[trigger] visited@[i],
            cluster@.len() >= old(cluster)@.len(),
            2 * unvisited(visited@) + stack@.len() <= 2 * unvisited(old(visited)@) + old(stack)@.len(),
            linked(cluster@, ri),
            stack@.len() >= old(stack)@.len(),
            forall|a: int| 0 <= a < old(cluster)@.len() ==> #[trigger] cluster@[a] == old(cluster)@[a],
            forall|k: int| 0 <= k < old(stack)@.len() ==> #[trigger] stack@[k] == old(stack)@[k],
            stack@.len() - old(stack)@.len() == cluster@.len() - old(cluster)@.len(),
            forall|a: int| old(cluster)@.len() <= a < cluster@.len() ==>
                #[trigger] cluster@[a] == stack@[old(stack)@.len() + a - old(cluster)@.len()],
            forall|x: int, y: int| f.in_bounds(x, y) && #[trigger] is_neighbor(p, x, y, ri) && x - lx + ri < di ==>
                visited@[index_of(w as int, x, y)],
        decreases 2 * r - di,
    {
        let mut dj: i64 = 0;
        while dj < 2 * r
            invariant
                r == radius as i64,
                ri == radius as int,
                w == f.width,
                h == f.height,
                0 <= di < 2 * r,
                0 <= dj,
                0 <= ap < old(cluster)@.len(),
                old(cluster)@[ap] == p,
                p == (lx, ly),
                search_inv(*f, visited@, done.push(cluster@)),
                visited@.len() == old(visited)@.len(),
                forall|i: int| 0 <= i < old(visited)@.len() && old(visited)@[i] ==> #[trigger] visited@[i],
                cluster@.len() >= old(cluster)@.len(),
                2 * unvisited(visited@) + stack@.len() <= 2 * unvisited(old(visited)@) + old(stack)@.len(),
                linked(cluster@, ri),
                stack@.len() >= old(stack)@.len(),
                forall|a: int| 0 <= a < old(cluster)@.len() ==> #[trigger] cluster@[a] == old(cluster)@[a],
                forall|k: int| 0 <= k < old(stack)@.len() ==> #[trigger] stack@[k] == old(stack)@[k],
                stack@.len() - old(stack)@.len() == cluster@.len() - old(cluster)@.len(),
                forall|a: int| old(cluster)@.len() <= a < cluster@.len() ==>
                    #[trigger] cluster@[a] == stack@[old(stack)@.len() + a - old(cluster)@.len()],
                forall|x: int, y: int| f.in_bounds(x, y) && #[trigger] is_neighbor(p, x, y, ri)
                    && (x - lx + ri < di || (x - lx + ri == di && y - ly + ri < dj)) ==>
                    visited@[index_of(w as int, x, y)],
            decreases 2 * r - dj,
        {
            let nx: i64 = lx as i64 + di - r;
            let ny: i64 = ly as i64 + dj - r;
            let ghost v0 = visited@;
            if 0 <= nx && nx < w as i64 && 0 <= ny && ny < h as i64 {
                let qx = nx as u32;
                let qy = ny as u32;
                let i = pixel_index(f, qx, qy);
                if !visited[i] {
                    let ghost all = done.push(cluster@);
                    let ghost c0 = cluster@;
                    proof { lemma_mark_unvisited(visited@, i as int); }
                    if f.get_pixel(qx, qy) == foreground_color() {
                        proof {
                            lemma_visit_foreground(*f, visited@, all, qx as int, qy as int);
                            assert(all.update(all.len() - 1, all[all.len() - 1].push((qx, qy)))
                                =~= done.push(cluster@.push((qx, qy))));
                        }
                        visited.set(i, true);
                        cluster.push((qx, qy));
                        stack.push((qx, qy));
                        proof {
                            assert forall|a: int| 0 < a < cluster@.len() implies #[trigger] has_earlier_neighbor(cluster@, a, ri) by {
                                if a == c0.len() {
                                    assert(cluster@[a] == (qx, qy));
                                    assert(qx as int - lx as int == di - r);
                                    assert(qy as int - ly as int == dj - r);
                                    assert(cluster@[ap] == p);
                                    assert(is_neighbor(cluster@[ap], cluster@[a].0 as int, cluster@[a].1 as int, ri));
                                } else {
                                    assert(cluster@[a] == c0[a]);
                                    assert(has_earlier_neighbor(c0, a, ri));
                                    let a2 = choose|a2: int| 0 <= a2 < a
                                        && #[trigger] is_neighbor(c0[a2], c0[a].0 as int, c0[a].1 as int, ri);
                                    assert(cluster@[a2] == c0[a2]);
                                    assert(is_neighbor(cluster@[a2], cluster@[a].0 as int, cluster@[a].1 as int, ri));
                                }
                            }
                            assert(linked(cluster@, ri));
                        }
                    } else {
                        proof { lemma_visit_background(*f, visited@, all, qx as int, qy as int); }
                        visited.set(i, true);
                    }
                }
            }
            proof {
                assert forall|x: int, y: int| f.in_bounds(x, y) && #[trigger] is_neighbor(p, x, y, ri)
                    && (x - lx + ri < di || (x - lx + ri == di && y - ly + ri < dj + 1)) implies
                    visited@[index_of(w as int, x, y)] by {
                    lemma_index_in_range(w as int, h as int, x, y);
                    if x - lx + ri < di || (x - lx + ri == di && y - ly + ri < dj) {
                        assert(v0[index_of(w as int, x, y)]);
                    }
                }
            }
            dj += 1;
        }
        di += 1;
    }
}

/// Grows `cluster` from the positions on `stack` until the stack is empty.
fn grow_cluster(
    f: &Frame,
    radius: u32,
    visited: &mut Vec<bool>,
    cluster: &mut Vec<(u32, u32)>,
    stack: &mut Vec<(u32, u32)>,
    Ghost(done): Ghost<Seq<Seq<(u32, u32)>>>,
)
    requires
        search_inv(*f, old(visited)@, done.push(old(cluster)@)),
        stack_inv(*f, old(visited)@, old(cluster)@, old(stack)@, radius as int),
        linked(old(cluster)@, radius as int),
    ensures
        search_inv(*f, final(visited)@, done.push(final(cluster)@)),
        final(visited)@.len() == old(visited)@.len(),
        forall|i: int| 0 <= i < old(visited)@.len() && old(visited)@[i] ==> #[trigger] final(visited)@[i],
        final(cluster)@.len() >= old(cluster)@.len(),
        forall|a: int| 0 <= a < old(cluster)@.len() ==> #[trigger] final(cluster)@[a] == old(cluster)@[a],
        linked(final(cluster)@, radius as int),
        forall|a: int| 0 <= a < final(cluster)@.len() ==> expanded(*f, final(visited)@, #[trigger] final(cluster)@[a], radius as int),
{
    let ghost ri = radius as int;
    while stack.len() > 0
        invariant
            ri == radius as int,
            search_inv(*f, visited@, done.push(cluster@)),
            visited@.len() == old(visited)@.len(),
            forall|i: int| 0 <= i < old(visited)@.len() && old(visited)@[i] ==> #[trigger] visited@[i],
            cluster@.len() >= old(cluster)@.len(),
            forall|a: int| 0 <= a < old(cluster)@.len() ==> #[trigger] cluster@[a] == old(cluster)@[a],
            linked(cluster@, ri),
            stack_inv(*f, visited@, cluster@, stack@, ri),
        decreases 2 * unvisited(visited@) + stack@.len(),
    {
        let ghost s0 = stack@;
        let ghost c0 = cluster@;
        let ghost v0 = visited@;
        let (lx, ly) = stack.pop().unwrap();
        let ghost s1 = stack@;
        proof {
            assert(s0 =~= s1.push((lx, ly)));
            assert(s0[s0.len() - 1] == (lx, ly));
            assert(c0.contains(s0[s0.len() - 1]));
        }
        visit_neighbors(f, radius, lx, ly, visited, cluster, stack, Ghost(done));
        proof {
            assert forall|k: int| 0 <= k < stack@.len() implies cluster@.contains(#[trigger] stack@[k]) by {
                if k < s1.len() {
                    assert(stack@[k] == s1[k]);
                    assert(s1[k] == s0[k]);
                    assert(c0.contains(s0[k]));
                    let a = choose|a: int| 0 <= a < c0.len() && c0[a] == s0[k];
                    assert(cluster@[a] == c0[a]);
                } else {
                    let a = c0.len() + k - s1.len();
                    assert(cluster@[a] == stack@[s1.len() + a - c0.len()]);
                }
            }
            assert forall|a: int| 0 <= a < cluster@.len() implies
                stack@.contains(#[trigger] cluster@[a]) || expanded(*f, visited@, cluster@[a], ri) by {
                if a < c0.len() {
                    let m = c0[a];
                    assert(cluster@[a] == m);
                    if m == (lx, ly) {
                    } else if s0.contains(m) {
                        let k = choose|k: int| 0 <= k < s0.len() && s0[k] == m;
                        assert(k < s1.len());
                        assert(stack@[k] == s1[k]);
                    } else {
                        assert(expanded(*f, v0, m, ri));
                        lemma_expanded_monotone(*f, v0, visited@, m, ri);
                    }
                } else {
                    assert(cluster@[a] == stack@[s1.len() + a - c0.len()]);
                }
            }
        }
    }
    proof {
        assert forall|a: int| 0 <= a < cluster@.len() implies expanded(*f, visited@, #[trigger] cluster@[a], ri) by {
            if stack@.contains(cluster@[a]) {
                let k = choose|k: int| 0 <= k < stack@.len() && stack@[k] == cluster@[a];
            }
        }
    }
}

/// Groups the foreground pixels of a mask frame into clusters. Pixels are scanned
/// column by column; each unvisited foreground pixel seeds a new cluster, which then
/// claims every unvisited pixel in the square neighborhood `[-radius, radius)` of
/// each of its members, so that a pixel belongs to the first cluster that reaches it.
pub fn extract_clusters(frame: &Frame, radius: u32) -> (res: Vec<Vec<(u32, u32)>>)
    requires
        frame.wf(),
    ensures
        partitions_foreground(*frame, deep_view(res@)),
        all_grown(*frame, deep_view(res@), radius as int),
{
    let n: usize = frame.pixels.len();
    let mut visited: Vec<bool> = Vec::with_capacity(n);
    while visited.len() < n
        invariant
            visited@.len() <= n,
            n == frame.pixels@.len(),
            forall|i: int| 0 <= i < visited@.len() ==> !#[trigger] visited@[i],
        decreases n - visited@.len(),
    {
        visited.push(false);
    }
    let w = frame.width;
    let h = frame.height;
    let mut clusters: Vec<Vec<(u32, u32)>> = Vec::new();
    proof {
        assert(deep_view(clusters@) =~= Seq::<Seq<(u32, u32)>>::empty());
        assert forall|x: int, y: int| frame.is_foreground(x, y) implies
            !#[trigger] visited@[index_of(w as int, x, y)] by {
            lemma_index_in_range(w as int, h as int, x, y);
        }
    }
    let mut x: u32 = 0;
    while x < w
        invariant
            w == frame.width,
            h == frame.height,
            x <= w,
            search_inv(*frame, visited@, deep_view(clusters@)),
            forall|c: int| 0 <= c < clusters@.len() ==> #[trigger] clusters@[c]@.len() > 0,
            forall|x2: int, y2: int| 0 <= x2 < x && 0 <= y2 < h ==> #[trigger] visited@[index_of(w as int, x2, y2)],
            all_grown(*frame, deep_view(clusters@), radius as int),
        decreases w - x,
    {
        let mut y: u32 = 0;
        while y < h
            invariant
                w == frame.width,
                h == frame.height,
                x < w,
                y <= h,
                search_inv(*frame, visited@, deep_view(clusters@)),
                forall|c: int| 0 <= c < clusters@.len() ==> #[trigger] clusters@[c]@.len() > 0,
                forall|x2: int, y2: int| 0 <= x2 < x && 0 <= y2 < h ==> #[trigger] visited@[index_of(w as int, x2, y2)],
                forall|y2: int| 0 <= y2 < y ==> #[trigger] visited@[index_of(w as int, x as int, y2)],
                all_grown(*frame, deep_view(clusters@), radius as int),
            decreases h - y,
        {
            let i = pixel_index(frame, x, y);
            let ghost v0 = visited@;
            if !visited[i] {
                let ghost done = deep_view(clusters@);
                if frame.get_pixel(x, y) == foreground_color() {
                    let mut cluster: Vec<(u32, u32)> = Vec::new();
                    let mut stack: Vec<(u32, u32)> = Vec::new();
                    proof {
                        let e = Seq::<(u32, u32)>::empty();
                        lemma_open_cluster(*frame, visited@, done);
                        lemma_visit_foreground(*frame, visited@, done.push(e), x as int, y as int);
                        assert(done.push(e).update(done.len() as int, e.push((x, y))) =~= done.push(seq![(x, y)]));
                    }
                    visited.set(i, true);
                    cluster.push((x, y));
                    stack.push((x, y));
                    proof { assert(cluster@ =~= seq![(x, y)]); }
                    proof {
                        assert forall|x2: int, y2: int| #[trigger] frame.is_foreground(x2, y2)
                            && scan_before(x2, y2, (x, y)) implies listed_upto(done, done.len() - 1, x2, y2) by {
                            lemma_index_in_range(w as int, h as int, x2, y2);
                            assert(v0[index_of(w as int, x2, y2)]);
                            let (c2, a2) = choose|c2: int, a2: int| 0 <= c2 < done.len() && 0 <= a2 < done[c2].len()
                                && #[trigger] done[c2][a2] == (x2 as u32, y2 as u32);
                        }
                    }
                    grow_cluster(frame, radius, &mut visited, &mut cluster, &mut stack, Ghost(done));
                    clusters.push(cluster);
                    proof {
                        let ri = radius as int;
                        let cs2 = done.push(cluster@);
                        assert(deep_view(clusters@) =~= cs2);
                        let last = done.len() as int;
                        assert(cs2[last] == cluster@);
                        assert(extends(cs2, done));
                        assert forall|c: int| 0 <= c < done.len() implies cs2[c] == done[c] by {}
                        assert forall|c: int| 0 <= c < done.len() implies done[c].len() > 0 && #[trigger] seeded(*frame, done, c) by {
                            assert(clusters@[c]@.len() > 0);
                            assert(grown(*frame, done, c, ri));
                        }
                        lemma_grown_extends(*frame, done, cs2, done.len() as int, ri);
                        assert(cluster@[0] == (x, y));
                        assert forall|x2: int, y2: int| #[trigger] frame.is_foreground(x2, y2)
                            && scan_before(x2, y2, cs2[last][0]) implies listed_upto(cs2, last - 1, x2, y2) by {
                            lemma_listed_extends(done, cs2, last - 1, x2, y2);
                        }
                        assert(seeded(*frame, cs2, last));
                        assert forall|a: int, x2: int, y2: int| 0 <= a < cs2[last].len() && #[trigger] is_neighbor(cs2[last][a], x2, y2, ri)
                            && frame.is_foreground(x2, y2) implies listed_upto(cs2, last, x2, y2) by {
                            assert(expanded(*frame, visited@, cluster@[a], ri));
                            lemma_index_in_range(w as int, h as int, x2, y2);
                            assert(visited@[index_of(w as int, x2, y2)]);
                            let (c2, a2) = choose|c2: int, a2: int| 0 <= c2 < cs2.len() && 0 <= a2 < cs2[c2].len()
                                && #[trigger] cs2[c2][a2] == (x2 as u32, y2 as u32);
                        }
                        assert(grown(*frame, cs2, last, ri));
                        assert forall|c: int| 0 <= c < cs2.len() implies #[trigger] grown(*frame, cs2, c, ri) by {
                            if c < last {
                                assert(grown(*frame, cs2, c, ri));
                            }
                        }
                    }
                } else {
                    proof { lemma_visit_background(*frame, visited@, done, x as int, y as int); }
                    visited.set(i, true);
                }
            }
            proof {
                assert forall|x2: int, y2: int| 0 <= x2 < x && 0 <= y2 < h implies
                    #[trigger] visited@[index_of(w as int, x2, y2)] by {
                    lemma_index_in_range(w as int, h as int, x2, y2);
                    assert(v0[index_of(w as int, x2, y2)]);
                }
                assert forall|y2: int| 0 <= y2 < y + 1 implies #[trigger] visited@[index_of(w as int, x as int, y2)] by {
                    lemma_index_in_range(w as int, h as int, x as int, y2);
                    if y2 < y {
                        assert(v0[index_of(w as int, x as int, y2)]);
                    }
                }
            }
            y += 1;
        }
        x += 1;
    }
    proof {
        let cs = deep_view(clusters@);
        assert forall|x2: int, y2: int| #[trigger] frame.is_foreground(x2, y2) implies
            exists|c: int, a: int| 0 <= c < cs.len() && 0 <= a < cs[c].len() && #[trigger] cs[c][a] == (x2 as u32, y2 as u32) by {
            lemma_index_in_range(w as int, h as int, x2, y2);
            assert(visited@[index_of(w as int, x2, y2)]);
        }
        assert forall|c: int| 0 <= c < cs.len() implies #[trigger] cs[c].len() > 0 by {
            assert(clusters@[c]@.len() > 0);
        }
    }
    clusters
}

} // verus!
