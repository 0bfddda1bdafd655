use plotui_core::categories::category_picks;
use plotui_core::groups::box_groups;
use plotui_core::groups::edge_route;
use plotui_core::mesh::stitch_triangles;

#[test]
fn box_groups_tolerate_malformed_offsets() {
    let v = [1.0f32, 2.0, 3.0];
    let got: Vec<usize> = box_groups(&v, &[0, 2]).iter().map(Vec::len).collect();
    assert_eq!(got, vec![2, 1], "the last group runs to the end");
    // Backwards or past the end yields an empty group, never a panic.
    let got: Vec<usize> = box_groups(&v, &[0, 99]).iter().map(Vec::len).collect();
    assert_eq!(got, vec![0, 0]);
    let got: Vec<usize> = box_groups(&v, &[2, 1]).iter().map(Vec::len).collect();
    assert_eq!(got, vec![0, 2]);
}

#[test]
fn box_groups_hand_out_the_values_in_order() {
    let v = [1.0f32, 2.0, 3.0, 4.0, 5.0];
    assert_eq!(box_groups(&v, &[0, 2, 2]), vec![vec![1.0, 2.0], vec![], vec![3.0, 4.0, 5.0]]);
    assert_eq!(box_groups(&v, &[]), Vec::<Vec<f32>>::new());
    assert_eq!(box_groups(&v, &[5]), vec![Vec::<f32>::new()]);
}

#[test]
fn stitching_two_triangular_rings_closes_a_prism() {
    let tris = stitch_triangles(2, 3);
    assert_eq!(
        tris,
        vec![
            [0, 3, 4],
            [0, 4, 1],
            [1, 4, 5],
            [1, 5, 2],
            [2, 5, 3],
            [2, 3, 0],
            [6, 1, 0],
            [7, 3, 4],
            [6, 2, 1],
            [7, 4, 5],
            [6, 0, 2],
            [7, 5, 3],
        ]
    );
}

#[test]
fn stitched_triangles_only_index_ring_points_and_centroids() {
    let (rings, sides) = (5usize, 4usize);
    let tris = stitch_triangles(rings, sides);
    assert_eq!(tris.len(), 2 * (rings - 1) * sides + 2 * sides);
    for t in &tris {
        for &i in t {
            assert!((i as usize) < rings * sides + 2);
        }
    }
    // A single ring is only its two caps.
    assert_eq!(stitch_triangles(1, 3).len(), 6);
}

#[test]
fn edge_routes_read_their_run_and_tolerate_bad_offsets() {
    let pts = [[0.0f32, 0.0], [1.0, 1.0], [2.0, 2.0]];
    // Edge 0 has the first two waypoints, edge 1 the last one.
    assert_eq!(edge_route(&pts, &[0, 2], 0), vec![[0.0, 0.0], [1.0, 1.0]]);
    assert_eq!(edge_route(&pts, &[0, 2], 1), vec![[2.0, 2.0]]);
    // An edge with no run, a backwards run, or one past the end is straight.
    assert!(edge_route(&pts, &[0, 2], 2).is_empty());
    assert!(edge_route(&pts, &[2, 1], 0).is_empty());
    assert!(edge_route(&pts, &[0, 9], 0).is_empty());
    assert!(edge_route(&pts, &[], 0).is_empty());
}

#[test]
fn categories_thin_by_a_whole_stride() {
    // Ten categories, about three labels: every fourth survives, each on its
    // own category.
    assert_eq!(category_picks(0, 9, 3), vec![0, 4, 8]);
    // Everything fits: every category.
    assert_eq!(category_picks(0, 3, 10), vec![0, 1, 2, 3]);
    assert_eq!(category_picks(2, 3, 10), vec![2, 3]);
    // A target of zero still shows one.
    assert_eq!(category_picks(5, 9, 0), vec![5]);
    assert_eq!(category_picks(7, 7, 4), vec![7]);
}
