use vstd::prelude::*;

verus! {

/// A Delaunay edge between two centers and its dual Voronoi edge between two corners.
#[derive(Debug, Clone, Copy)]
pub struct Edge {
    /// Position of the edge in the edge list.
    pub index: usize,
    /// Centers joined by the Delaunay edge.
    pub d0: usize,
    pub d1: usize,
    /// Corners (triangle circumcenters) joined by the Voronoi edge.
    pub v0: usize,
    pub v1: usize,
}

/// The combinatorial part of the world graph: who touches whom.
///
/// Centers are the Delaunay points (Voronoi cells), corners are the Delaunay triangles
/// (Voronoi vertices). Positions, elevations and other measured quantities live beside it,
/// indexed the same way.
pub struct MeshTopology {
    /// For each center, the corners of its polygon.
    pub center_corners: Vec<Vec<usize>>,
    /// For each center, the neighbouring centers, without repetition.
    pub center_neighbors: Vec<Vec<usize>>,
    /// For each corner, the three centers of its triangle.
    pub corner_touches: Vec<Vec<usize>>,
    /// For each corner, the neighbouring corners, without repetition.
    pub corner_adjacent: Vec<Vec<usize>>,
    pub edges: Vec<Edge>,
}

/// Every list of `lists` only names indices below `bound`.
pub open spec fn lists_within(lists: Seq<Vec<usize>>, bound: int) -> bool {
    forall|i: int, j: int|
        0 <= i < lists.len() && 0 <= j < lists[i]@.len() ==> #[trigger] lists[i]@[j] < bound
}

impl MeshTopology {
    /// Sizes agree and every index points inside the graph.
    pub open spec fn wf(&self) -> bool {
        let nc = self.center_corners@.len();
        let nk = self.corner_touches@.len();
        &&& self.center_neighbors@.len() == nc
        &&& self.corner_adjacent@.len() == nk
        &&& lists_within(self.center_corners@, nk as int)
        &&& lists_within(self.center_neighbors@, nc as int)
        &&& lists_within(self.corner_touches@, nc as int)
        &&& lists_within(self.corner_adjacent@, nk as int)
        &&& forall|i: int|
            0 <= i < self.edges@.len() ==> {
                let e = #[trigger] self.edges@[i];
                &&& e.index == i
                &&& e.d0 < nc && e.d1 < nc
                &&& e.v0 < nk && e.v1 < nk
            }
    }
}

/// Pushing onto a sequence adds exactly the pushed element to what it contains.
pub proof fn lemma_push_contains(s: Seq<usize>, x: usize)
    ensures
        forall|y: usize| #[trigger] s.push(x).contains(y) <==> s.contains(y) || y == x,
{
    let t = s.push(x);
    assert(t[s.len() as int] == x);
    assert forall|y: usize| #[trigger] t.contains(y) implies s.contains(y) || y == x by {
        let i = choose|i: int| 0 <= i < t.len() && t[i] == y;
        if i < s.len() {
            assert(s[i] == y);
        }
    }
    assert forall|y: usize| s.contains(y) implies #[trigger] t.contains(y) by {
        let i = choose|i: int| 0 <= i < s.len() && s[i] == y;
        assert(t[i] == y);
    }
}

} // verus!
