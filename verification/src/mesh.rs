use vstd::prelude::*;
use crate::graph::{Edge, MeshTopology};

verus! {

/// Next half-edge of the same triangle: half-edges `3t`, `3t + 1`, `3t + 2` form a cycle.
pub open spec fn spec_next_halfedge(e: int) -> int {
    if e % 3 == 2 { e - 2 } else { e + 1 }
}

/// Returns the half-edge that follows `e` inside its triangle.
pub fn next_halfedge(e: usize) -> (r: usize)
    requires
        e % 3 == 2 || e < usize::MAX,
    ensures
        r == spec_next_halfedge(e as int),
        r / 3 == e / 3,
{
    if e % 3 == 2 { e - 2 } else { e + 1 }
}

/// The marker that `delaunator` puts in `halfedges` for a half-edge on the hull.
#[verifier::external_body]
fn hull_marker() -> (r: usize)
    ensures
        r == usize::MAX,
{
    delaunator::EMPTY
}

/// Delaunator's twin structure: every half-edge with a twin is the twin of its twin, and the
/// two run between the same two centers in opposite directions.
pub open spec fn twins_consistent(tris: Seq<usize>, hes: Seq<usize>) -> bool {
    forall|k: int|
        0 <= k < hes.len() && #[trigger] hes[k] != usize::MAX ==> {
            &&& hes[k] < hes.len()
            &&& hes[hes[k] as int] == k
            &&& tris[hes[k] as int] == tris[spec_next_halfedge(k)]
            &&& tris[spec_next_halfedge(hes[k] as int)] == tris[k]
        }
}

/// The edge that half-edge `k` gives appears among the edges of the first `m` half-edges,
/// when `k` has a twin and is the lower of the two.
proof fn lemma_edges_upto_has(tris: Seq<usize>, hes: Seq<usize>, m: nat, k: int) -> (i: int)
    requires
        0 <= k < m <= hes.len(),
        hes[k] != usize::MAX,
        k <= hes[k],
    ensures
        0 <= i < edges_upto(tris, hes, m).len(),
        edges_upto(tris, hes, m)[i].d0 == tris[k],
        edges_upto(tris, hes, m)[i].d1 == tris[spec_next_halfedge(k)],
        edges_upto(tris, hes, m)[i].v0 == k / 3,
        edges_upto(tris, hes, m)[i].v1 == hes[k] / 3,
    decreases m,
{
    let prev = edges_upto(tris, hes, (m - 1) as nat);
    if k == m - 1 {
        prev.len() as int
    } else {
        let i = lemma_edges_upto_has(tris, hes, (m - 1) as nat, k);
        if keeps_halfedge(hes, m - 1) {
            assert(edges_upto(tris, hes, m)[i] == prev[i]);
        }
        i
    }
}

/// Two triangles that share an edge make the two cells on that edge neighbours and the two
/// corners adjacent: for every half-edge `k` that has a twin `halfedges[k] >= k`, the centers
/// `triangles[k]` and `triangles[next_halfedge(k)]` list each other, and so do the corners
/// `k / 3` and `halfedges[k] / 3`.
pub proof fn lemma_twin_halfedges_link(tris: Seq<usize>, hes: Seq<usize>, k: int)
    requires
        0 <= k < hes.len(),
        hes[k] != usize::MAX,
        k <= hes[k],
    ensures
        ({
            let edges = edges_upto(tris, hes, hes.len());
            let a = tris[k];
            let b = tris[spec_next_halfedge(k)];
            let u = (k / 3) as usize;
            let v = (hes[k] / 3) as usize;
            &&& links_upto(center_pairs(edges), a as int, edges.len()).contains(b)
            &&& links_upto(center_pairs(edges), b as int, edges.len()).contains(a)
            &&& links_upto(corner_pairs(edges), u as int, edges.len()).contains(v)
            &&& links_upto(corner_pairs(edges), v as int, edges.len()).contains(u)
        }),
{
    let edges = edges_upto(tris, hes, hes.len());
    let i = lemma_edges_upto_has(tris, hes, hes.len(), k);
    let a = tris[k];
    let b = tris[spec_next_halfedge(k)];
    let u = (k / 3) as usize;
    let v = (hes[k] / 3) as usize;
    let cp = center_pairs(edges);
    let kp = corner_pairs(edges);
    assert(cp[i].0 == a && cp[i].1 == b);
    assert(kp[i].0 == u && kp[i].1 == v);
    lemma_links_members(cp, a as int, edges.len(), b);
    lemma_links_members(cp, b as int, edges.len(), a);
    lemma_links_members(kp, u as int, edges.len(), v);
    lemma_links_members(kp, v as int, edges.len(), u);
}

/// With Delaunator's twin structure, every shared edge links its cells and corners, whichever
/// of its two half-edges is taken: for every half-edge `k` with a twin, the centers at its two
/// ends list each other, and so do the corners `k / 3` and `halfedges[k] / 3`.
pub proof fn lemma_shared_edges_link(tris: Seq<usize>, hes: Seq<usize>, k: int)
    requires
        twins_consistent(tris, hes),
        hes.len() <= usize::MAX,
        0 <= k < hes.len(),
        hes[k] != usize::MAX,
    ensures
        ({
            let edges = edges_upto(tris, hes, hes.len());
            let a = tris[k];
            let b = tris[spec_next_halfedge(k)];
            let u = (k / 3) as usize;
            let v = (hes[k] / 3) as usize;
            &&& links_upto(center_pairs(edges), a as int, edges.len()).contains(b)
            &&& links_upto(center_pairs(edges), b as int, edges.len()).contains(a)
            &&& links_upto(corner_pairs(edges), u as int, edges.len()).contains(v)
            &&& links_upto(corner_pairs(edges), v as int, edges.len()).contains(u)
        }),
{
    if k <= hes[k] {
        lemma_twin_halfedges_link(tris, hes, k);
    } else {
        let j = hes[k] as int;
        assert(hes[j] == k);
        assert(hes[j] != usize::MAX);
        assert(tris[j] == tris[spec_next_halfedge(k)]);
        assert(tris[spec_next_halfedge(j)] == tris[k]);
        lemma_twin_halfedges_link(tris, hes, j);
    }
}

/// Triangles (as corner indices) that contain center `c`, listed in the order in which
/// the first `m` entries of the flattened triangle array name `c`.
pub open spec fn corners_of_center(tris: Seq<usize>, c: int, m: nat) -> Seq<usize>
    decreases m,
{
    if m == 0 {
        seq![]
    } else {
        let prev = corners_of_center(tris, c, (m - 1) as nat);
        if tris[m - 1] == c {
            prev.push(((m - 1) / 3) as usize)
        } else {
            prev
        }
    }
}

/// The three centers of triangle `t`.
pub open spec fn triangle_vertices(tris: Seq<usize>, t: int) -> Seq<usize> {
    seq![tris[3 * t], tris[3 * t + 1], tris[3 * t + 2]]
}

/// A half-edge gives an edge when it has a twin and is the lower-numbered of the pair.
pub open spec fn keeps_halfedge(hes: Seq<usize>, k: int) -> bool {
    hes[k] != usize::MAX && k <= hes[k]
}

/// Edges produced by the first `m` half-edges.
pub open spec fn edges_upto(tris: Seq<usize>, hes: Seq<usize>, m: nat) -> Seq<Edge>
    decreases m,
{
    if m == 0 {
        seq![]
    } else {
        let prev = edges_upto(tris, hes, (m - 1) as nat);
        let k = m - 1;
        if keeps_halfedge(hes, k) {
            prev.push(
                Edge {
                    index: prev.len() as usize,
                    d0: tris[k],
                    d1: tris[spec_next_halfedge(k)],
                    v0: (k / 3) as usize,
                    v1: (hes[k] / 3) as usize,
                },
            )
        } else {
            prev
        }
    }
}

/// Appends `x` unless it is already there.
pub open spec fn add_unique(s: Seq<usize>, x: usize) -> Seq<usize> {
    if s.contains(x) {
        s
    } else {
        s.push(x)
    }
}

/// The link list of node `c` after the link `a`–`b` is recorded both ways.
pub open spec fn link_step(s: Seq<usize>, c: int, a: usize, b: usize) -> Seq<usize> {
    let s1 = if a == c { add_unique(s, b) } else { s };
    if b == c { add_unique(s1, a) } else { s1 }
}

/// The link list of node `c` after the first `k` pairs have been recorded.
pub open spec fn links_upto(pairs: Seq<(usize, usize)>, c: int, k: nat) -> Seq<usize>
    decreases k,
{
    if k == 0 {
        seq![]
    } else {
        link_step(links_upto(pairs, c, (k - 1) as nat), c, pairs[k - 1].0, pairs[k - 1].1)
    }
}

/// Center pairs joined by each edge.
pub open spec fn center_pairs(edges: Seq<Edge>) -> Seq<(usize, usize)> {
    Seq::new(edges.len(), |i: int| (edges[i].d0, edges[i].d1))
}

/// Corner pairs joined by each edge.
pub open spec fn corner_pairs(edges: Seq<Edge>) -> Seq<(usize, usize)> {
    Seq::new(edges.len(), |i: int| (edges[i].v0, edges[i].v1))
}

/// A triangulation of `n` points: whole triangles as point triples, and for each half-edge
/// its twin (an index into the half-edges of the triangles) or `usize::MAX` on the hull.
pub open spec fn valid_triangulation(n: nat, tris: Seq<usize>, hes: Seq<usize>) -> bool {
    &&& tris.len() % 3 == 0
    &&& hes.len() <= tris.len()
    &&& forall|k: int| 0 <= k < tris.len() ==> #[trigger] tris[k] < n
    &&& forall|k: int| 0 <= k < hes.len() ==> #[trigger] hes[k] == usize::MAX || hes[k] < tris.len()
}

fn contains_value(v: &Vec<usize>, x: usize) -> (r: bool)
    ensures
        r == v@.contains(x),
{
    let mut i: usize = 0;
    while i < v.len()
        invariant
            i <= v@.len(),
            forall|j: int| 0 <= j < i ==> v@[j] != x,
        decreases v@.len() - i,
    {
        if v[i] == x {
            return true;
        }
        i += 1;
    }
    false
}

/// Records the link `a`–`b` in both lists, without repeating an entry.
fn link_both(lists: &mut Vec<Vec<usize>>, a: usize, b: usize)
    requires
        a < old(lists)@.len(),
        b < old(lists)@.len(),
    ensures
        final(lists)@.len() == old(lists)@.len(),
        forall|c: int|
            0 <= c < old(lists)@.len() ==> #[trigger] final(lists)@[c]@ == link_step(
                old(lists)@[c]@,
                c,
                a,
                b,
            ),
{
    let ghost start = lists@;
    if !contains_value(&lists[a], b) {
        lists[a].push(b);
    }
    let ghost mid = lists@;
    assert forall|c: int| 0 <= c < start.len() implies #[trigger] mid[c]@ == (if a == c {
        add_unique(start[c]@, b)
    } else {
        start[c]@
    }) by {}
    if !contains_value(&lists[b], a) {
        lists[b].push(a);
    }
    assert forall|c: int| 0 <= c < start.len() implies #[trigger] lists@[c]@ == (if b == c {
        add_unique(mid[c]@, a)
    } else {
        mid[c]@
    }) by {}
    assert forall|c: int| 0 <= c < start.len() implies #[trigger] lists@[c]@ == link_step(
        start[c]@,
        c,
        a,
        b,
    ) by {}
}

fn empty_lists(n: usize) -> (r: Vec<Vec<usize>>)
    ensures
        r@.len() == n,
        forall|i: int| 0 <= i < n ==> (#[trigger] r@[i])@.len() == 0,
{
    let mut r: Vec<Vec<usize>> = Vec::new();
    while r.len() < n
        invariant
            r@.len() <= n,
            forall|i: int| 0 <= i < r@.len() ==> (#[trigger] r@[i])@.len() == 0,
        decreases n - r@.len(),
    {
        r.push(Vec::new());
    }
    r
}


/// Builds the Voronoi/Delaunay topology from a triangulation of `num_centers` points:
/// `triangles` holds point triples and `halfedges[k]` the twin of half-edge `k`
/// (or `usize::MAX` on the hull), as `delaunator` returns them.
pub fn build_topology(num_centers: usize, triangles: &Vec<usize>, halfedges: &Vec<usize>) -> (t: MeshTopology)
    requires
        valid_triangulation(num_centers as nat, triangles@, halfedges@),
    ensures
        t.wf(),
        t.center_corners@.len() == num_centers,
        t.corner_touches@.len() == triangles@.len() / 3,
        forall|c: int|
            0 <= c < num_centers ==> (#[trigger] t.center_corners@[c])@ == corners_of_center(
                triangles@,
                c,
                triangles@.len(),
            ),
        forall|k: int|
            0 <= k < t.corner_touches@.len() ==> (#[trigger] t.corner_touches@[k])@
                == triangle_vertices(triangles@, k),
        t.edges@ == edges_upto(triangles@, halfedges@, halfedges@.len()),
        forall|c: int|
            0 <= c < num_centers ==> (#[trigger] t.center_neighbors@[c])@ == links_upto(
                center_pairs(t.edges@),
                c,
                t.edges@.len(),
            ),
        forall|k: int|
            0 <= k < t.corner_touches@.len() ==> (#[trigger] t.corner_adjacent@[k])@
                == links_upto(corner_pairs(t.edges@), k, t.edges@.len()),
        forall|k: int|
            0 <= k < halfedges@.len() && #[trigger] halfedges@[k] != usize::MAX && (k
                <= halfedges@[k] || twins_consistent(triangles@, halfedges@)) ==> {
                let a = triangles@[k];
                let b = triangles@[spec_next_halfedge(k)];
                &&& t.center_neighbors@[a as int]@.contains(b)
                &&& t.center_neighbors@[b as int]@.contains(a)
                &&& t.corner_adjacent@[k / 3]@.contains((halfedges@[k] / 3) as usize)
                &&& t.corner_adjacent@[halfedges@[k] as int / 3]@.contains((k / 3) as usize)
            },
{
    let ghost tris = triangles@;
    let ghost hes = halfedges@;
    let num_triangles = triangles.len() / 3;

    // Corners: one per triangle, touching its three centers.
    let mut center_corners = empty_lists(num_centers);
    let mut corner_touches: Vec<Vec<usize>> = Vec::new();
    let mut t: usize = 0;
    assert(3 * num_triangles == tris.len());
    assert forall|c: int| 0 <= c < num_centers implies (#[trigger] center_corners@[c])@
        == corners_of_center(tris, c, 0) by {
        assert(center_corners@[c]@ =~= seq![]);
    }
    while t < num_triangles
        invariant
            num_triangles == tris.len() / 3,
            3 * num_triangles == tris.len(),
            tris.len() == triangles.len(),
            tris.len() % 3 == 0,
            tris == triangles@,
            valid_triangulation(num_centers as nat, tris, hes),
            t <= num_triangles,
            corner_touches@.len() == t,
            center_corners@.len() == num_centers,
            forall|k: int|
                0 <= k < t ==> (#[trigger] corner_touches@[k])@ == triangle_vertices(tris, k),
            forall|c: int|
                0 <= c < num_centers ==> (#[trigger] center_corners@[c])@ == corners_of_center(
                    tris,
                    c,
                    (3 * t) as nat,
                ),
        decreases num_triangles - t,
    {
        assert(3 * t + 2 < tris.len());
        let base = 3 * t;
        let i0 = triangles[base];
        let i1 = triangles[base + 1];
        let i2 = triangles[base + 2];
        let mut touches: Vec<usize> = Vec::new();
        touches.push(i0);
        touches.push(i1);
        touches.push(i2);
        assert(touches@ == triangle_vertices(tris, t as int));
        corner_touches.push(touches);
        let ghost c0 = center_corners@;
        center_corners[i0].push(t);
        proof { lemma_corner_step(tris, c0, center_corners@, i0, t, 0); }
        let ghost c1 = center_corners@;
        center_corners[i1].push(t);
        proof { lemma_corner_step(tris, c1, center_corners@, i1, t, 1); }
        let ghost c2 = center_corners@;
        center_corners[i2].push(t);
        proof { lemma_corner_step(tris, c2, center_corners@, i2, t, 2); }
        t += 1;
    }
    assert(3 * num_triangles == tris.len());

    // Edges: one per pair of twin half-edges, taken at the lower index.
    let empty = hull_marker();
    let mut edges: Vec<Edge> = Vec::new();
    let mut k: usize = 0;
    while k < halfedges.len()
        invariant
            tris == triangles@,
            hes == halfedges@,
            valid_triangulation(num_centers as nat, tris, hes),
            empty == usize::MAX,
            k <= hes.len(),
            edges@ == edges_upto(tris, hes, k as nat),
        decreases hes.len() - k,
    {
        let twin = halfedges[k];
        if twin != empty && k <= twin {
            let e = Edge {
                index: edges.len(),
                d0: triangles[k],
                d1: triangles[next_halfedge(k)],
                v0: k / 3,
                v1: twin / 3,
            };
            edges.push(e);
        }
        k += 1;
    }
    proof {
        lemma_edges_in_range(tris, hes, num_centers as nat, hes.len());
    }

    // Neighbour relations, recorded edge by edge.
    let mut center_neighbors = empty_lists(num_centers);
    let mut corner_adjacent = empty_lists(num_triangles);
    assert forall|c: int| 0 <= c < num_centers implies (#[trigger] center_neighbors@[c])@
        == links_upto(center_pairs(edges@), c, 0) by {
        assert(center_neighbors@[c]@ =~= seq![]);
    }
    assert forall|c: int| 0 <= c < num_triangles implies (#[trigger] corner_adjacent@[c])@
        == links_upto(corner_pairs(edges@), c, 0) by {
        assert(corner_adjacent@[c]@ =~= seq![]);
    }
    let mut i: usize = 0;
    while i < edges.len()
        invariant
            tris == triangles@,
            hes == halfedges@,
            edges@ == edges_upto(tris, hes, hes.len()),
            num_triangles == tris.len() / 3,
            forall|j: int|
                0 <= j < edges@.len() ==> {
                    let e = #[trigger] edges@[j];
                    &&& e.index == j
                    &&& e.d0 < num_centers && e.d1 < num_centers
                    &&& e.v0 < num_triangles && e.v1 < num_triangles
                },
            i <= edges@.len(),
            center_neighbors@.len() == num_centers,
            corner_adjacent@.len() == num_triangles,
            forall|c: int|
                0 <= c < num_centers ==> (#[trigger] center_neighbors@[c])@ == links_upto(
                    center_pairs(edges@),
                    c,
                    i as nat,
                ),
            forall|c: int|
                0 <= c < num_triangles ==> (#[trigger] corner_adjacent@[c])@ == links_upto(
                    corner_pairs(edges@),
                    c,
                    i as nat,
                ),
        decreases edges@.len() - i,
    {
        let e = edges[i];
        link_both(&mut center_neighbors, e.d0, e.d1);
        link_both(&mut corner_adjacent, e.v0, e.v1);
        assert(center_pairs(edges@)[i as int] == (e.d0, e.d1));
        assert(corner_pairs(edges@)[i as int] == (e.v0, e.v1));
        i += 1;
    }
    let topo = MeshTopology {
        center_corners,
        center_neighbors,
        corner_touches,
        corner_adjacent,
        edges,
    };
    proof {
        let nc = num_centers as int;
        let nk = num_triangles as int;
        assert forall|c: int, j: int|
            0 <= c < nc && 0 <= j < topo.center_corners@[c]@.len() implies
            #[trigger] topo.center_corners@[c]@[j] < nk by {
            lemma_corners_of_center_bound(tris, c, tris.len());
        }
        assert forall|c: int, j: int|
            0 <= c < nk && 0 <= j < topo.corner_touches@[c]@.len() implies
            #[trigger] topo.corner_touches@[c]@[j] < nc by {
            assert(3 * c + 2 < tris.len());
        }
        assert forall|c: int, j: int|
            0 <= c < nc && 0 <= j < topo.center_neighbors@[c]@.len() implies
            #[trigger] topo.center_neighbors@[c]@[j] < nc by {
            lemma_links_bound(center_pairs(topo.edges@), c, topo.edges@.len(), nc);
            assert(topo.center_neighbors@[c]@.contains(topo.center_neighbors@[c]@[j]));
        }
        assert forall|c: int, j: int|
            0 <= c < nk && 0 <= j < topo.corner_adjacent@[c]@.len() implies
            #[trigger] topo.corner_adjacent@[c]@[j] < nk by {
            lemma_links_bound(corner_pairs(topo.edges@), c, topo.edges@.len(), nk);
            assert(topo.corner_adjacent@[c]@.contains(topo.corner_adjacent@[c]@[j]));
        }
        assert forall|k: int|
            0 <= k < hes.len() && #[trigger] hes[k] != usize::MAX && (k <= hes[k]
                || twins_consistent(tris, hes)) implies {
                let a = tris[k];
                let b = tris[spec_next_halfedge(k)];
                &&& topo.center_neighbors@[a as int]@.contains(b)
                &&& topo.center_neighbors@[b as int]@.contains(a)
                &&& topo.corner_adjacent@[k / 3]@.contains((hes[k] / 3) as usize)
                &&& topo.corner_adjacent@[hes[k] as int / 3]@.contains((k / 3) as usize)
            } by {
            if k <= hes[k] {
                lemma_twin_halfedges_link(tris, hes, k);
            } else {
                lemma_shared_edges_link(tris, hes, k);
            }
            assert(0 <= spec_next_halfedge(k) < tris.len());
            assert(tris[k] < nc);
            assert(tris[spec_next_halfedge(k)] < nc);
            assert(k / 3 < nk);
            assert(hes[k] / 3 < nk);
        }
    }
    topo
}

proof fn lemma_corner_step(
    tris: Seq<usize>,
    before: Seq<Vec<usize>>,
    after: Seq<Vec<usize>>,
    x: usize,
    t: usize,
    r: int,
)
    requires
        0 <= r < 3,
        3 * t + r < tris.len(),
        tris[3 * t + r] == x,
        x < before.len(),
        after == before.update(x as int, after[x as int]),
        after[x as int]@ == before[x as int]@.push(t),
        forall|c: int|
            0 <= c < before.len() ==> (#[trigger] before[c])@ == corners_of_center(
                tris,
                c,
                (3 * t + r) as nat,
            ),
    ensures
        forall|c: int|
            0 <= c < after.len() ==> (#[trigger] after[c])@ == corners_of_center(
                tris,
                c,
                (3 * t + r + 1) as nat,
            ),
{
    assert((3 * t + r) / 3 == t);
    assert forall|c: int| 0 <= c < after.len() implies (#[trigger] after[c])@ == corners_of_center(
        tris,
        c,
        (3 * t + r + 1) as nat,
    ) by {
        assert(corners_of_center(tris, c, (3 * t + r + 1) as nat) == (if tris[3 * t + r] == c {
            corners_of_center(tris, c, (3 * t + r) as nat).push(t)
        } else {
            corners_of_center(tris, c, (3 * t + r) as nat)
        }));
    }
}

/// Corner indices listed for a center come from the first `m` triangle slots.
proof fn lemma_corners_of_center_bound(tris: Seq<usize>, c: int, m: nat)
    requires
        m <= tris.len(),
        tris.len() <= usize::MAX,
    ensures
        forall|j: int|
            0 <= j < corners_of_center(tris, c, m).len() ==> 3 * #[trigger] corners_of_center(
                tris,
                c,
                m,
            )[j] < m,
    decreases m,
{
    if m > 0 {
        lemma_corners_of_center_bound(tris, c, (m - 1) as nat);
        let q = (m - 1) / 3;
        assert(3 * q <= m - 1);
        assert(q as usize == q);
        let prev = corners_of_center(tris, c, (m - 1) as nat);
        if tris[m - 1] == c {
            assert(corners_of_center(tris, c, m) == prev.push(q as usize));
            assert(corners_of_center(tris, c, m)[prev.len() as int] == q);
        }
    }
}

/// What the link list of `c` holds: the other end of every recorded pair that touches `c`.
pub proof fn lemma_links_members(pairs: Seq<(usize, usize)>, c: int, k: nat, x: usize)
    requires
        k <= pairs.len(),
    ensures
        links_upto(pairs, c, k).contains(x) <==> exists|i: int|
            0 <= i < k && ((#[trigger] pairs[i].0 == c && pairs[i].1 == x) || (pairs[i].1 == c
                && pairs[i].0 == x)),
        links_upto(pairs, c, k).no_duplicates(),
    decreases k,
{
    if k > 0 {
        lemma_links_members(pairs, c, (k - 1) as nat, x);
        let prev = links_upto(pairs, c, (k - 1) as nat);
        let (a, b) = pairs[k - 1];
        let s1 = if a == c { add_unique(prev, b) } else { prev };
        lemma_add_unique(prev, b, x);
        lemma_add_unique(s1, a, x);
        assert(s1.contains(x) <==> prev.contains(x) || (a == c && b == x));
        if exists|i: int|
            0 <= i < k && ((#[trigger] pairs[i].0 == c && pairs[i].1 == x) || (pairs[i].1 == c
                && pairs[i].0 == x)) {
            let i = choose|i: int|
                0 <= i < k && ((#[trigger] pairs[i].0 == c && pairs[i].1 == x) || (pairs[i].1 == c
                    && pairs[i].0 == x));
            if i < k - 1 {
                assert(prev.contains(x));
            }
        }
    }
}

proof fn lemma_add_unique(s: Seq<usize>, b: usize, x: usize)
    ensures
        add_unique(s, b).contains(x) <==> s.contains(x) || x == b,
        s.no_duplicates() ==> add_unique(s, b).no_duplicates(),
{
    if !s.contains(b) {
        let t = s.push(b);
        assert(t[s.len() as int] == b);
        if s.contains(x) {
            let i = choose|i: int| 0 <= i < s.len() && s[i] == x;
            assert(t[i] == x);
        }
        if t.contains(x) {
            let i = choose|i: int| 0 <= i < t.len() && t[i] == x;
            if i < s.len() {
                assert(s[i] == x);
            }
        }
    }
}

proof fn lemma_links_bound(pairs: Seq<(usize, usize)>, c: int, k: nat, bound: int)
    requires
        k <= pairs.len(),
        forall|i: int| 0 <= i < k ==> #[trigger] pairs[i].0 < bound && pairs[i].1 < bound,
    ensures
        forall|x: usize| #[trigger] links_upto(pairs, c, k).contains(x) ==> x < bound,
{
    assert forall|x: usize| #[trigger] links_upto(pairs, c, k).contains(x) implies x < bound by {
        lemma_links_members(pairs, c, k, x);
    }
}

/// Every edge of `edges_upto` is numbered by its position and names existing centers and corners.
proof fn lemma_edges_in_range(tris: Seq<usize>, hes: Seq<usize>, n: nat, m: nat)
    requires
        valid_triangulation(n, tris, hes),
        m <= hes.len(),
    ensures
        edges_upto(tris, hes, m).len() <= m,
        forall|j: int|
            0 <= j < edges_upto(tris, hes, m).len() ==> {
                let e = #[trigger] edges_upto(tris, hes, m)[j];
                &&& e.index == j
                &&& e.d0 < n && e.d1 < n
                &&& e.v0 < tris.len() / 3 && e.v1 < tris.len() / 3
            },
    decreases m,
{
    if m > 0 {
        lemma_edges_in_range(tris, hes, n, (m - 1) as nat);
        let k = m - 1;
        if keeps_halfedge(hes, k) {
            assert(0 <= spec_next_halfedge(k) < tris.len());
            assert(hes[k] < tris.len());
        }
    }
}

/// Any list built by recording links is symmetric: `b` is linked to `a` exactly when `a` is
/// linked to `b`, and no list repeats an entry. This holds of the center neighbours and of
/// the corner adjacencies that `build_topology` returns.
pub proof fn lemma_links_symmetric(pairs: Seq<(usize, usize)>, a: usize, b: usize)
    ensures
        links_upto(pairs, a as int, pairs.len()).contains(b) <==> links_upto(
            pairs,
            b as int,
            pairs.len(),
        ).contains(a),
        links_upto(pairs, a as int, pairs.len()).no_duplicates(),
{
    lemma_links_members(pairs, a as int, pairs.len(), b);
    lemma_links_members(pairs, b as int, pairs.len(), a);
}

/// Which corners a center lists: exactly the triangles whose vertex slots name it.
proof fn lemma_corners_of_center_members(tris: Seq<usize>, c: int, m: nat, x: usize)
    requires
        m <= tris.len(),
        tris.len() <= usize::MAX,
    ensures
        corners_of_center(tris, c, m).contains(x) <==> exists|j: int|
            0 <= j < m && #[trigger] tris[j] == c && j / 3 == x,
    decreases m,
{
    if m > 0 {
        lemma_corners_of_center_members(tris, c, (m - 1) as nat, x);
        let prev = corners_of_center(tris, c, (m - 1) as nat);
        let q = (m - 1) / 3;
        assert(q as usize == q);
        if tris[m - 1] == c {
            let cur = prev.push(q as usize);
            assert(cur[prev.len() as int] == q);
            if cur.contains(x) {
                let i = choose|i: int| 0 <= i < cur.len() && cur[i] == x;
                if i < prev.len() {
                    assert(prev[i] == x);
                }
            }
            if prev.contains(x) {
                let i = choose|i: int| 0 <= i < prev.len() && prev[i] == x;
                assert(cur[i] == x);
            }
        }
        if exists|j: int| 0 <= j < m && #[trigger] tris[j] == c && j / 3 == x {
            let j = choose|j: int| 0 <= j < m && #[trigger] tris[j] == c && j / 3 == x;
            if j < m - 1 {
                assert(prev.contains(x));
            }
        }
    }
}

/// Corners and centers see each other: triangle `t` is among the corners of center `c`
/// exactly when `c` is one of the three centers that corner `t` touches.
pub proof fn lemma_incidence_dual(tris: Seq<usize>, c: usize, t: usize)
    requires
        tris.len() % 3 == 0,
        tris.len() <= usize::MAX,
        3 * t < tris.len(),
    ensures
        corners_of_center(tris, c as int, tris.len()).contains(t) <==> triangle_vertices(
            tris,
            t as int,
        ).contains(c),
{
    lemma_corners_of_center_members(tris, c as int, tris.len(), t);
    let tv = triangle_vertices(tris, t as int);
    if tv.contains(c) {
        let i = choose|i: int| 0 <= i < 3 && tv[i] == c;
        assert((3 * t + i) / 3 == t);
        assert(tris[3 * t + i] == c);
    }
    if exists|j: int| 0 <= j < tris.len() && #[trigger] tris[j] == c && j / 3 == t {
        let j = choose|j: int| 0 <= j < tris.len() && #[trigger] tris[j] == c && j / 3 == t;
        assert(j == 3 * t || j == 3 * t + 1 || j == 3 * t + 2);
        assert(tv[j - 3 * t] == c);
    }
}
} // verus!
