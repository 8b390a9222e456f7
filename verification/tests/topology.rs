use world_gen::mesh::{build_topology, next_halfedge};

#[test]
fn next_halfedge_cycles_inside_a_triangle() {
    assert_eq!(next_halfedge(0), 1);
    assert_eq!(next_halfedge(1), 2);
    assert_eq!(next_halfedge(2), 0);
    assert_eq!(next_halfedge(3), 4);
    assert_eq!(next_halfedge(5), 3);
}

#[test]
fn two_triangles_share_one_edge() {
    // Square 0-1-2-3 split along the diagonal 0-2.
    let triangles = vec![0, 1, 2, 0, 2, 3];
    let halfedges = vec![usize::MAX, usize::MAX, 3, 2, usize::MAX, usize::MAX];
    let t = build_topology(4, &triangles, &halfedges);
    assert_eq!(t.edges.len(), 1);
    let e = t.edges[0];
    assert_eq!((e.index, e.d0, e.d1, e.v0, e.v1), (0, 2, 0, 0, 1));
    assert_eq!(t.center_neighbors, vec![vec![2], vec![], vec![0], vec![]]);
    assert_eq!(t.center_corners, vec![vec![0, 1], vec![0], vec![0, 1], vec![1]]);
    assert_eq!(t.corner_touches, vec![vec![0, 1, 2], vec![0, 2, 3]]);
    assert_eq!(t.corner_adjacent, vec![vec![1], vec![0]]);
}

#[test]
fn empty_triangulation_gives_isolated_centers() {
    let t = build_topology(3, &vec![], &vec![]);
    assert_eq!(t.center_neighbors, vec![Vec::<usize>::new(); 3]);
    assert_eq!(t.center_corners, vec![Vec::<usize>::new(); 3]);
    assert!(t.corner_touches.is_empty());
    assert!(t.edges.is_empty());
}

#[test]
fn delaunay_topology_is_symmetric_and_consistent() {
    let mut points = Vec::new();
    for i in 0..7 {
        for j in 0..6 {
            let x = i as f64 * 10.0 + (j % 2) as f64 * 3.0;
            let y = j as f64 * 9.0 + (i * j % 3) as f64;
            points.push(delaunator::Point { x, y });
        }
    }
    let tri = delaunator::triangulate(&points);
    assert!(!tri.triangles.is_empty());
    let t = build_topology(points.len(), &tri.triangles, &tri.halfedges);
    let n = points.len();
    assert_eq!(t.center_neighbors.len(), n);
    for a in 0..n {
        for &b in &t.center_neighbors[a] {
            assert!(t.center_neighbors[b].contains(&a), "{} lists {} but not back", a, b);
        }
        let mut sorted = t.center_neighbors[a].clone();
        sorted.sort();
        sorted.dedup();
        assert_eq!(sorted.len(), t.center_neighbors[a].len());
        for &k in &t.center_corners[a] {
            assert!(t.corner_touches[k].contains(&a));
        }
    }
    for k in 0..t.corner_touches.len() {
        for &c in &t.corner_touches[k] {
            assert!(t.center_corners[c].contains(&k));
        }
        for &m in &t.corner_adjacent[k] {
            assert!(t.corner_adjacent[m].contains(&k));
        }
    }
    for (i, e) in t.edges.iter().enumerate() {
        assert_eq!(e.index, i);
        assert!(t.center_neighbors[e.d0].contains(&e.d1));
    }
}
