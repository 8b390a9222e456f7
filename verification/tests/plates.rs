use world_gen::tectonics::{plate_component_counts, propagate_plates};

fn path(n: usize) -> Vec<Vec<usize>> {
    (0..n)
        .map(|i| {
            let mut v = Vec::new();
            if i > 0 {
                v.push(i - 1);
            }
            if i + 1 < n {
                v.push(i + 1);
            }
            v
        })
        .collect()
}

#[test]
fn plates_grow_from_their_seeds() {
    let g = path(5);
    let labels = propagate_plates(&g, &vec![false; 5], &vec![0, 4]);
    assert_eq!(labels, vec![Some((0, 0)), Some((0, 1)), Some((0, 2)), Some((1, 1)), Some((1, 0))]);
}

#[test]
fn ties_go_to_the_smaller_plate_number() {
    let g = path(5);
    // Plate 0 seeded on the right, plate 1 on the left: the middle cell is equidistant.
    let labels = propagate_plates(&g, &vec![false; 5], &vec![4, 0]);
    assert_eq!(labels[2], Some((0, 2)));
    assert_eq!(labels[1], Some((1, 1)));
}

#[test]
fn ghosts_are_never_entered() {
    let g = path(5);
    let labels = propagate_plates(&g, &vec![false, false, true, false, false], &vec![0]);
    assert_eq!(labels, vec![Some((0, 0)), Some((0, 1)), None, None, None]);
}

#[test]
fn one_region_per_grown_plate() {
    let g = path(7);
    let ghost = vec![false; 7];
    let labels = propagate_plates(&g, &ghost, &vec![1, 5]);
    let plate_ids: Vec<usize> = labels.iter().map(|l| l.unwrap().0).collect();
    assert_eq!(plate_component_counts(&g, &ghost, &plate_ids, 2), vec![1, 1]);
}

#[test]
fn split_plates_are_counted() {
    let g = path(5);
    let ghost = vec![false; 5];
    let plate_ids = vec![0, 1, 0, 1, 0];
    assert_eq!(plate_component_counts(&g, &ghost, &plate_ids, 3), vec![3, 2, 0]);
}

#[test]
fn ghosts_split_regions_and_are_not_counted() {
    let g = path(5);
    let ghost = vec![false, false, true, false, false];
    let plate_ids = vec![0, 0, 1, 0, 0];
    assert_eq!(plate_component_counts(&g, &ghost, &plate_ids, 2), vec![2, 0]);
}
