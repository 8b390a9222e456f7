use world_gen::hydrology::hop_distances;

fn path(n: usize) -> Vec<Vec<usize>> {
    (0..n)
        .map(|i| {
            let mut v = Vec::new();
            if i > 0 {
                v.push(i - 1);
            }
            if i + 1 < n {
                v.push(i + 1);
            }
            v
        })
        .collect()
}

#[test]
fn distances_along_a_path() {
    let g = path(4);
    let d = hop_distances(&g, &vec![true, false, false, false], &vec![true; 4]);
    assert_eq!(d, vec![Some(0), Some(1), Some(2), Some(3)]);
}

#[test]
fn nearest_of_several_sources() {
    let g = path(6);
    let d = hop_distances(&g, &vec![true, false, false, false, false, true], &vec![true; 6]);
    assert_eq!(d, vec![Some(0), Some(1), Some(2), Some(2), Some(1), Some(0)]);
}

#[test]
fn impassable_nodes_block_the_search() {
    let g = path(4);
    let d = hop_distances(&g, &vec![true, false, false, false], &vec![true, true, false, true]);
    assert_eq!(d, vec![Some(0), Some(1), None, None]);
}

#[test]
fn no_source_no_distance() {
    let g = path(3);
    let d = hop_distances(&g, &vec![false; 3], &vec![true; 3]);
    assert_eq!(d, vec![None, None, None]);
}

#[test]
fn out_of_range_neighbours_are_ignored() {
    let g = vec![vec![1, 7], vec![0, 9]];
    let d = hop_distances(&g, &vec![true, false], &vec![true, true]);
    assert_eq!(d, vec![Some(0), Some(1)]);
}

#[test]
fn distances_change_by_at_most_one_along_edges() {
    // A small grid with one blocked cell.
    let w = 5;
    let h = 4;
    let mut g = vec![Vec::new(); w * h];
    for y in 0..h {
        for x in 0..w {
            let i = y * w + x;
            if x > 0 {
                g[i].push(i - 1);
            }
            if x + 1 < w {
                g[i].push(i + 1);
            }
            if y > 0 {
                g[i].push(i - w);
            }
            if y + 1 < h {
                g[i].push(i + w);
            }
        }
    }
    let mut pass = vec![true; w * h];
    pass[7] = false;
    let mut src = vec![false; w * h];
    src[0] = true;
    let d = hop_distances(&g, &src, &pass);
    for u in 0..w * h {
        for &v in &g[u] {
            if let (Some(du), true) = (d[u], pass[v]) {
                assert!(d[v].unwrap() <= du + 1);
            }
        }
    }
    assert_eq!(d[19], Some(7));
    assert_eq!(d[7], None);
}
