use reslicer::supports::islands::{classify_island_layers, join_segments};

fn square(x: i32, y: i32, side: i32) -> Vec<[i32; 2]> {
    vec![
        [x, y],
        [x + side, y],
        [x + side, y],
        [x + side, y + side],
        [x + side, y + side],
        [x, y + side],
        [x, y + side],
        [x, y],
    ]
}

#[test]
fn closed_square_yields_one_polygon() {
    let polygons = join_segments(&square(0, 0, 1000));
    assert_eq!(polygons, vec![vec![[0, 0], [1000, 0], [1000, 1000], [0, 1000]]]);
}

#[test]
fn square_in_any_order_and_direction_yields_its_corners_once() {
    let points = [
        [0, 0],
        [2000, 0],
        [0, 2000],
        [0, 0],
        [2000, 2000],
        [2000, 0],
        [0, 0],
        [2000, 0],
        [2000, 2000],
        [0, 2000],
    ];
    let polygons = join_segments(&points);
    assert_eq!(polygons, vec![vec![[0, 0], [2000, 0], [2000, 2000], [0, 2000]]]);
}

#[test]
fn disjoint_squares_yield_one_polygon_each() {
    let mut points = square(0, 0, 1000);
    points.extend(square(5000, 5000, 2000));
    let polygons = join_segments(&points);
    assert_eq!(polygons.len(), 2);
    assert_eq!(polygons[0], vec![[0, 0], [1000, 0], [1000, 1000], [0, 1000]]);
    assert_eq!(polygons[1], vec![[5000, 5000], [7000, 5000], [7000, 7000], [5000, 7000]]);
}

#[test]
fn chain_bridges_gaps_within_the_cutoff() {
    let points = [[0, 0], [1000, 0], [1300, 400], [1000, 1000], [1000, 1000], [0, 0]];
    let polygons = join_segments(&points);
    assert_eq!(polygons, vec![vec![[0, 0], [1000, 0], [1000, 1000]]]);
}

#[test]
fn ties_go_to_the_first_segment() {
    let points = [[0, 0], [1000, 0], [1000, 0], [1000, 1000], [1000, 0], [2000, 0]];
    let polygons = join_segments(&points);
    assert_eq!(polygons, vec![vec![[0, 0], [1000, 0], [1000, 1000]]]);
}

#[test]
fn open_chain_is_kept_when_segments_run_out() {
    let points = [[0, 0], [1000, 0], [1000, 0], [1000, 1000], [1000, 1000], [0, 1000]];
    let polygons = join_segments(&points);
    assert_eq!(polygons, vec![vec![[0, 0], [1000, 0], [1000, 1000], [0, 1000]]]);
}

#[test]
fn segment_beyond_the_cutoff_ends_the_chain() {
    let points = [[0, 0], [1000, 0], [1000, 600], [2000, 600]];
    assert!(join_segments(&points).is_empty());
}

#[test]
fn floating_box_slices_are_islands() {
    // Layers at z = 0 and 1 miss a box floating over z in [1.5, 3.5]; the
    // layers at z = 2 and 3 each cut it in the same square.
    let slices = [vec![], vec![], square(0, 0, 10000), square(0, 0, 10000)];
    let mut layers = Vec::new();
    let mut counts = Vec::new();
    for slice in slices.iter() {
        let regions = join_segments(slice);
        counts.push(regions.len());
        let previous = *counts.iter().rev().skip(1).find(|n| **n > 0).unwrap_or(&0);
        layers.push(vec![vec![true; previous]; regions.len()]);
    }
    assert_eq!(counts, vec![0, 0, 1, 1]);
    let plan = classify_island_layers(false, &layers);
    assert_eq!(plan.len(), 2);
    assert_eq!(plan[0].layer_index, 2);
    assert_eq!(plan[0].unsupported, vec![0]);
    assert_eq!(plan[1].layer_index, 3);
    assert_eq!(plan[1].unsupported, vec![0]);
}

#[test]
fn no_segments_yield_no_polygon() {
    assert!(join_segments(&[]).is_empty());
    assert!(join_segments(&[[5, 5]]).is_empty());
}

#[test]
fn model_on_the_plate_with_overlapping_layers_has_no_islands() {
    let layers = vec![
        vec![vec![], vec![]],
        vec![vec![true, false]],
        vec![],
        vec![vec![true], vec![true]],
    ];
    assert!(classify_island_layers(true, &layers).is_empty());
}

#[test]
fn floating_overlap_table_marks_every_layer_unsupported() {
    let layers = vec![vec![vec![]], vec![vec![true]], vec![vec![true], vec![true]]];
    let plan = classify_island_layers(false, &layers);
    assert_eq!(plan.len(), 3);
    assert_eq!(plan[0].layer_index, 0);
    assert_eq!(plan[1].unsupported, vec![0]);
    assert_eq!(plan[2].layer_index, 2);
    assert_eq!(plan[2].unsupported, vec![0, 1]);
}

#[test]
fn region_overlapping_nothing_supported_is_an_island() {
    // layer 1: region 0 rests on region 0 below, region 1 on nothing;
    // layer 3 (above the empty layer 2): region 0 rests only on the island
    let layers = vec![
        vec![vec![]],
        vec![vec![true], vec![false]],
        vec![],
        vec![vec![false, true]],
    ];
    let plan = classify_island_layers(true, &layers);
    assert_eq!(plan.len(), 2);
    assert_eq!(plan[0].layer_index, 1);
    assert_eq!(plan[0].unsupported, vec![1]);
    assert_eq!(plan[1].layer_index, 3);
    assert_eq!(plan[1].unsupported, vec![0]);
}

#[test]
fn missing_overlap_entries_count_as_no_overlap() {
    let layers = vec![vec![vec![]], vec![vec![]]];
    let plan = classify_island_layers(true, &layers);
    assert_eq!(plan.len(), 1);
    assert_eq!(plan[0].layer_index, 1);
}

#[test]
fn layers_without_regions_hold_no_islands() {
    let layers: Vec<Vec<Vec<bool>>> = vec![vec![], vec![], vec![]];
    assert!(classify_island_layers(false, &layers).is_empty());
    assert!(classify_island_layers(true, &[]).is_empty());
}
