use plotui_core::crossings::count_crossings;
use plotui_core::dummies::insert_dummies;
use plotui_core::graph::reachable;
use plotui_core::graph::Direction;
use plotui_core::layered::remove_cycles;
use plotui_core::layered::LayoutEdge;
use plotui_core::ordering::barycenter_sweep;
use plotui_core::ordering::dfs_order;
use plotui_core::placement::node_priority;
use plotui_core::placement::placement_order;
use plotui_core::plan::plan_layers;
use plotui_core::plan::LayeredPlan;
use plotui_core::ranking::rank_nodes;
use plotui_core::sweeps::reduce_crossings;

/// The nine-task pipeline the CLI example draws: two feeds, a join, a
/// fan-out to two consumers, a merge, and one long edge that skips two
/// ranks (clean_prices -> backtest).
fn pipeline() -> (usize, Vec<(u32, u32)>) {
    (9, vec![(0, 2), (1, 3), (2, 4), (3, 4), (4, 5), (5, 6), (5, 7), (6, 8), (7, 8), (2, 7)])
}

fn plan(n: usize, edges: &[(u32, u32)]) -> LayeredPlan {
    plan_layers(n, edges).expect("a small graph always gets a plan")
}

fn edge(orig: usize, from: usize, to: usize, reversed: bool) -> LayoutEdge {
    LayoutEdge { orig, from, to, reversed }
}

/// The dummy chain of caller edge `e`, empty for an edge that skips nothing.
fn chain_of(p: &LayeredPlan, e: usize) -> Vec<usize> {
    p.chains.iter().find(|(o, _)| *o == e).map(|(_, c)| c.clone()).unwrap_or_default()
}

#[test]
fn reachable_follows_direction() {
    let (n, edges) = pipeline();
    let down = reachable(n, &edges, 0, Direction::Downstream);
    assert!(down[0] && down[2] && down[4] && down[8], "the closure must reach the sink");
    assert!(!down[1] && !down[3], "the other feed's branch is not downstream");
    let up = reachable(n, &edges, 8, Direction::Upstream);
    assert_eq!(up.iter().filter(|&&x| x).count(), n, "everything feeds the publish step");
    assert_eq!(reachable(n, &edges, 0, Direction::Upstream).iter().filter(|&&x| x).count(), 1);
    assert!(reachable(n, &edges, 99, Direction::Downstream).iter().all(|&x| !x));
}

#[test]
fn ranks_respect_edge_direction() {
    let (n, edges) = pipeline();
    let p = plan(n, &edges);
    let r = &p.ranks;
    for &(a, b) in &edges {
        assert!(r[a as usize] < r[b as usize], "edge {a}->{b} runs backwards");
    }
    assert_eq!(r.iter().copied().min(), Some(0), "the first rank must not be empty");
    assert_eq!(r, &vec![0, 0, 1, 1, 2, 3, 4, 4, 5]);
}

#[test]
fn long_edges_get_one_waypoint_per_skipped_rank() {
    let (n, edges) = pipeline();
    let p = plan(n, &edges);
    let r = &p.ranks;
    for (e, &(a, b)) in edges.iter().enumerate() {
        let span = r[b as usize] - r[a as usize];
        assert_eq!(chain_of(&p, e).len(), span.saturating_sub(1) as usize, "edge {a}->{b} spans {span} ranks");
    }
    assert!(!chain_of(&p, edges.len() - 1).is_empty(), "the skipping edge must be routed");
}

#[test]
fn waypoints_run_in_the_callers_edge_direction() {
    let edges = vec![(0u32, 1), (1, 2), (0, 2)];
    let p = plan(3, &edges);
    let skip = chain_of(&p, 2);
    assert_eq!(skip.len(), 1);
    // The waypoint sits on the middle rank, between the ranks it bridges.
    assert_eq!(p.rank_of[skip[0]], 1);
    assert!(p.ranks[0] < 1 && p.ranks[2] > 1);
}

#[test]
fn barycenter_sweeps_reduce_crossings_on_a_known_graph() {
    // A 2x2 bipartite graph wired across itself: 0->3 and 1->2. Laid out
    // in index order the two edges cross; the ordering must untangle it.
    let edges = vec![(0u32, 3), (1, 2)];
    let p = plan(4, &edges);
    assert_eq!(count_crossings(&p.layers, &p.segs, 4), 0, "the crossing survived: {:?}", p.layers);
    let in_index_order = vec![vec![0usize, 1], vec![2, 3]];
    assert_eq!(count_crossings(&in_index_order, &p.segs, 4), 1);
}

#[test]
fn cycles_do_not_hang_and_reverse_a_back_edge() {
    let edges = vec![(0u32, 1), (1, 2), (2, 0)];
    let p = plan(3, &edges);
    assert_eq!(p.ranks, vec![0, 1, 2], "the back edge 2->0 is the one reversed");
    assert_eq!(p.edges[2], edge(2, 0, 2, true));
    // A self-loop and an out-of-range endpoint are inert, not fatal.
    let odd = plan(2, &[(0, 0), (0, 9), (0, 1)]);
    assert_eq!(odd.ranks, vec![0, 1]);
    assert_eq!(odd.edges, vec![edge(2, 0, 1, false)]);
}

#[test]
fn layout_is_deterministic() {
    let (n, edges) = pipeline();
    let a = plan(n, &edges);
    let b = plan(n, &edges);
    assert_eq!(a.ranks, b.ranks);
    assert_eq!(a.layers, b.layers);
    assert_eq!(a.segs, b.segs);
    assert_eq!(a.chains, b.chains);
    assert_eq!(a.edges, b.edges);
}

#[test]
fn an_empty_or_edgeless_graph_still_lays_out() {
    let empty = plan(0, &[]);
    assert!(empty.ranks.is_empty());
    assert!(empty.chains.is_empty());
    let loose = plan(3, &[]);
    assert_eq!(loose.ranks, vec![0, 0, 0], "with no edges everything is a source");
    assert_eq!(loose.layers, vec![vec![0, 1, 2]], "loose nodes share the one rank, side by side");
}

#[test]
fn ranking_pulls_a_lone_source_down_to_its_consumers() {
    //          0 -> 1 -> 2 -> 3,  far(4) -> 3
    let edges = vec![(0u32, 1), (1, 2), (2, 3), (4, 3)];
    let p = plan(5, &edges);
    assert_eq!(p.ranks[4], 2, "the lone source sits just above what it feeds");
    assert_eq!(p.ranks[3], 3);
}

#[test]
fn remove_cycles_keeps_an_acyclic_graph_as_given() {
    let (n, edges) = pipeline();
    let live = remove_cycles(n, &edges);
    assert_eq!(live.len(), edges.len());
    for (i, (e, &(a, b))) in live.iter().zip(&edges).enumerate() {
        assert_eq!(*e, edge(i, a as usize, b as usize, false));
    }
}

#[test]
fn rank_nodes_is_longest_path_then_tightened() {
    let live = vec![edge(0, 0, 1, false), edge(1, 1, 2, false), edge(2, 2, 3, false), edge(3, 4, 3, false)];
    assert_eq!(rank_nodes(5, &live), vec![0, 1, 2, 3, 2]);
    assert_eq!(rank_nodes(3, &[]), vec![0, 0, 0]);
    assert_eq!(rank_nodes(0, &[]), Vec::<u32>::new());
}

#[test]
fn rank_nodes_leaves_a_cycle_where_its_reached_predecessors_put_it() {
    // 1 and 2 feed each other, so Kahn's order never takes them; 1 still
    // climbs past 0, and 0 (one edge out, none in) sits just above it.
    let live = vec![edge(0, 0, 1, false), edge(1, 1, 2, false), edge(2, 2, 1, false)];
    assert_eq!(rank_nodes(3, &live), vec![0, 1, 0]);
    let ring = vec![edge(0, 0, 1, false), edge(1, 1, 0, false)];
    assert_eq!(rank_nodes(2, &ring), vec![0, 0]);
}

#[test]
fn remove_cycles_reverses_each_edge_back_into_the_path() {
    // Depth-first from 0 walks 0 -> 1 -> 2; from 2 both 2->0 and 2->1 lead
    // back into the path and are flipped.
    let r = remove_cycles(3, &[(0, 1), (1, 2), (2, 0), (2, 1)]);
    assert_eq!(r, vec![edge(0, 0, 1, false), edge(1, 1, 2, false), edge(2, 0, 2, true), edge(3, 1, 2, true)]);
}

#[test]
fn insert_dummies_splits_a_skipping_edge() {
    let live = vec![edge(0, 0, 1, false), edge(1, 1, 2, false), edge(2, 0, 2, false)];
    let (layers, segs, chains, rank_of) = insert_dummies(3, &live, &[0, 1, 2]);
    assert_eq!(layers, vec![vec![0], vec![1, 3], vec![2]]);
    assert_eq!(segs, vec![(0, 1), (1, 2), (0, 3), (3, 2)]);
    assert_eq!(chains, vec![(2, vec![3])]);
    assert_eq!(rank_of, vec![0, 1, 2, 1]);
}

#[test]
fn insert_dummies_turns_a_reversed_chain_round() {
    let live = vec![edge(7, 0, 3, true)];
    let (layers, segs, chains, rank_of) = insert_dummies(2, &live[..0], &[0, 0]);
    assert_eq!(layers, vec![vec![0, 1]]);
    assert!(segs.is_empty() && chains.is_empty());
    assert_eq!(rank_of, vec![0, 0]);
    let live = vec![edge(7, 0, 1, true)];
    let (_, segs, chains, rank_of) = insert_dummies(2, &live, &[0, 3]);
    assert_eq!(segs, vec![(0, 2), (2, 3), (3, 1)]);
    assert_eq!(chains, vec![(7, vec![3, 2])], "a reversed edge lists its waypoints from its own source");
    assert_eq!(rank_of, vec![0, 3, 1, 2]);
}

#[test]
fn count_crossings_counts_crossing_pairs_per_gap() {
    let layers = vec![vec![0usize, 1, 2], vec![3, 4, 5]];
    assert_eq!(count_crossings(&layers, &[(0, 3), (1, 4), (2, 5)], 6), 0);
    assert_eq!(count_crossings(&layers, &[(0, 5), (1, 4), (2, 3)], 6), 3);
    assert_eq!(count_crossings(&layers, &[(0, 4), (0, 3)], 6), 0, "segments sharing an end never cross");
    assert_eq!(count_crossings(&layers, &[], 6), 0);
}

#[test]
fn barycenter_sweep_sorts_by_neighbour_positions() {
    let mut layers = vec![vec![0usize, 1], vec![2, 3]];
    let up = vec![vec![], vec![], vec![1usize], vec![0]];
    barycenter_sweep(&mut layers, &up, true);
    assert_eq!(layers, vec![vec![0, 1], vec![3, 2]]);
    // Going up, the bottom layer is left alone and the top one follows it.
    let mut layers = vec![vec![0usize, 1], vec![2, 3]];
    let down = vec![vec![3usize], vec![2], vec![], vec![]];
    barycenter_sweep(&mut layers, &down, false);
    assert_eq!(layers, vec![vec![1, 0], vec![2, 3]]);
    // A node with no neighbours keeps its place as its key; ties keep order.
    let mut layers = vec![vec![0usize], vec![1, 2, 3]];
    let up = vec![vec![], vec![0usize], vec![], vec![0]];
    barycenter_sweep(&mut layers, &up, true);
    assert_eq!(layers, vec![vec![0], vec![1, 3, 2]]);
}

#[test]
fn dfs_order_seeds_by_discovery() {
    let layers = vec![vec![0usize, 1], vec![2, 3]];
    let down = vec![vec![3usize], vec![2], vec![], vec![]];
    assert_eq!(dfs_order(&layers, &down), vec![vec![0, 1], vec![3, 2]]);
}

#[test]
fn reduce_crossings_keeps_the_best_ordering() {
    let layers = vec![vec![0usize, 1], vec![2, 3]];
    let out = reduce_crossings(layers, &[(0, 3), (1, 2)]);
    assert_eq!(out, vec![vec![0, 1], vec![3, 2]]);
    let empty: Vec<Vec<usize>> = vec![vec![], vec![]];
    assert_eq!(reduce_crossings(empty.clone(), &[]), empty);
}

#[test]
fn placement_visits_busiest_first_then_by_id() {
    assert_eq!(placement_order(&[7, 3, 9], &[1, 5, 1]), vec![1, 0, 2]);
    assert_eq!(placement_order(&[4, 2], &[0, 0]), vec![1, 0], "ties go to the lower id");
    assert_eq!(placement_order(&[], &[]), Vec::<usize>::new());
    assert_eq!(node_priority(1, 3, 2), 2);
    assert_eq!(node_priority(5, 3, 2), u32::MAX / 2 + 2, "a dummy outranks every real node");
}

/// The sweep as the renderer has always run it: single-precision
/// barycenters, `total_cmp`, ties by current position.
fn sweep_reference(layers: &mut [Vec<usize>], nbrs: &[Vec<usize>], descending: bool) {
    let mut pos = vec![0f32; nbrs.len()];
    let idx: Vec<usize> = if descending { (0..layers.len()).collect() } else { (0..layers.len()).rev().collect() };
    for (step, &r) in idx.iter().enumerate() {
        if step > 0 {
            let mut keyed: Vec<(f32, usize, usize)> = layers[r]
                .iter()
                .enumerate()
                .map(|(i, &v)| {
                    let ns = &nbrs[v];
                    let b = if ns.is_empty() {
                        i as f32
                    } else {
                        ns.iter().map(|&u| pos[u]).sum::<f32>() / ns.len() as f32
                    };
                    (b, i, v)
                })
                .collect();
            keyed.sort_by(|a, b| a.0.total_cmp(&b.0).then(a.1.cmp(&b.1)).then(a.2.cmp(&b.2)));
            layers[r] = keyed.into_iter().map(|(_, _, v)| v).collect();
        }
        for (i, &v) in layers[r].iter().enumerate() {
            pos[v] = i as f32;
        }
    }
}

#[test]
fn barycenters_that_round_to_one_float_keep_their_order() {
    // 24081/602 is a little above 24121/603, but both round to the same
    // single-precision float, so the two nodes tie and keep their places.
    let mut a = vec![40usize; 602];
    a[0] = 41;
    let mut b = vec![40usize; 603];
    b[0] = 41;
    let mut nbrs: Vec<Vec<usize>> = vec![Vec::new(); 64];
    nbrs.push(a);
    nbrs.push(b);
    for order in [vec![64usize, 65], vec![65, 64]] {
        let mut layers = vec![(0..64).collect::<Vec<usize>>(), order.clone()];
        barycenter_sweep(&mut layers, &nbrs, true);
        assert_eq!(layers[1], order);
        let mut reference = vec![(0..64).collect::<Vec<usize>>(), order.clone()];
        sweep_reference(&mut reference, &nbrs, true);
        assert_eq!(layers, reference);
    }
}

#[test]
fn barycenter_sweep_matches_the_single_precision_sweep() {
    // A deterministic scramble of layers and neighbour lists, swept both ways.
    let mut seed: u64 = 0x9E37_79B9_7F4A_7C15;
    let mut next = |m: usize| -> usize {
        seed ^= seed << 13;
        seed ^= seed >> 7;
        seed ^= seed << 17;
        (seed % m as u64) as usize
    };
    for round in 0..200 {
        let nl = 2 + next(4);
        let mut layers: Vec<Vec<usize>> = Vec::new();
        let mut id = 0;
        for _ in 0..nl {
            let w = 1 + next(7);
            layers.push((id..id + w).collect());
            id += w;
        }
        let nbrs: Vec<Vec<usize>> = (0..id).map(|_| (0..next(5)).map(|_| next(id)).collect()).collect();
        let descending = round % 2 == 0;
        let mut got = layers.clone();
        barycenter_sweep(&mut got, &nbrs, descending);
        let mut want = layers.clone();
        sweep_reference(&mut want, &nbrs, descending);
        assert_eq!(got, want, "round {round}");
    }
}

#[test]
fn upstream_mirrors_downstream_and_swapped_edges() {
    let (n, edges) = pipeline();
    let rev: Vec<(u32, u32)> = edges.iter().map(|&(x, y)| (y, x)).collect();
    for a in 0..n {
        let down = reachable(n, &edges, a, Direction::Downstream);
        let up = reachable(n, &edges, a, Direction::Upstream);
        assert_eq!(up, reachable(n, &rev, a, Direction::Downstream));
        for b in 0..n {
            assert_eq!(down[b], reachable(n, &edges, b, Direction::Upstream)[a]);
        }
    }
}
