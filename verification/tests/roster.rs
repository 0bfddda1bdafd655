use plotui_core::color::COLORWAY_MUTED;
use plotui_core::color::COLORWAY_PLOTUI;
use plotui_core::controls::Element;
use plotui_core::controls::TraceError;
use plotui_core::controls::YAxis;
use plotui_core::roster::PlotState;
use plotui_core::roster::TraceKind;
use plotui_core::style::Orient;

fn bar(orient: Orient, axis: YAxis) -> TraceKind {
    TraceKind::Bar2d { orient, axis }
}

#[test]
fn extend_and_visibility_error_paths() {
    let mut p = PlotState::new();
    let s3 = p.push_trace(TraceKind::Scatter3d, 1, 0, 1);
    let g = p.push_trace(TraceKind::Graph3d, 1, 0, 1);
    let sf = p.push_trace(TraceKind::Surface3d, 0, 0, 0);
    let l2 = p.push_trace(TraceKind::Line2d { axis: YAxis::Primary }, 0, 0, 0);
    let me = p.push_trace(TraceKind::Mesh3d, 0, 0, 0);

    assert_eq!(p.extend_xy_allowed(99), Err(TraceError::UnknownTrace));
    assert_eq!(p.set_visible(99, false), Err(TraceError::UnknownTrace));
    assert_eq!(p.extend_xy_allowed(s3), Err(TraceError::WrongKind));
    assert_eq!(p.extend_pts_allowed(l2), Err(TraceError::WrongKind));
    assert_eq!(p.extend_pts_allowed(g), Err(TraceError::FixedShape));
    assert_eq!(p.extend_xy_allowed(sf), Err(TraceError::FixedShape));
    // A mesh is structural like a graph or a surface, not the wrong kind.
    assert_eq!(p.extend_pts_allowed(me), Err(TraceError::FixedShape));
    assert_eq!(p.extend_xy_allowed(me), Err(TraceError::FixedShape));
    assert_eq!(p.extend_xy_allowed(l2), Ok(()));
    assert_eq!(p.extend_pts_allowed(s3), Ok(()));
}

#[test]
fn muting_keeps_the_legend_row_that_hiding_removes() {
    let mut p = PlotState::new();
    p.push_trace(TraceKind::Line2d { axis: YAxis::Primary }, 0, 0, 0);
    let h = p.push_trace(TraceKind::Line2d { axis: YAxis::Primary }, 0, 0, 0);
    assert_eq!(p.set_visible(h, false), Ok(true), "hiding changes something");
    assert!(!p.is_visible(h) && !p.in_legend(h), "hidden: no geometry, no legend row");
    assert_eq!(p.set_visible(h, false), Ok(false), "hiding twice changes nothing");
    assert_eq!(p.set_visible(h, true), Ok(true));
    assert_eq!(p.set_muted(h, true), Ok(false), "set_muted reports the new shown state");
    assert!(!p.is_visible(h) && p.in_legend(h), "muted: the row stays behind");
    assert_eq!(p.toggle_muted(h), Ok(true), "toggling back shows it");
    assert!(p.is_visible(h) && p.in_legend(h));
    assert_eq!(p.toggle_muted(99), Err(TraceError::UnknownTrace));
    assert_eq!(p.set_muted(99, true), Err(TraceError::UnknownTrace));
    // A handle the state has never seen counts as drawn.
    assert!(p.is_visible(99) && p.in_legend(99));
}

#[test]
fn colors_cycle_in_fixed_order() {
    let mut p = PlotState::new();
    for k in 0..20 {
        assert_eq!(p.next_color(), COLORWAY_PLOTUI[k % 8]);
        assert_eq!(p.resolve_color(None), COLORWAY_PLOTUI[k % 8]);
        assert_eq!(p.resolve_color(Some([1, 2, 3])), [1, 2, 3]);
        p.push_trace(TraceKind::Scatter2d { axis: YAxis::Primary }, 0, 0, 0);
    }
    p.set_colorway(Vec::new());
    assert_eq!(p.next_color(), COLORWAY_PLOTUI[20 % 8], "an empty colorway is ignored");
    p.set_colorway(COLORWAY_MUTED.to_vec());
    assert_eq!(p.next_color(), COLORWAY_MUTED[20 % 8]);
}

#[test]
fn bars_group_by_orientation_and_axis() {
    let mut p = PlotState::new();
    let a = p.push_trace(bar(Orient::Vertical, YAxis::Primary), 0, 0, 0);
    let line = p.push_trace(TraceKind::Line2d { axis: YAxis::Primary }, 0, 0, 0);
    let b = p.push_trace(bar(Orient::Vertical, YAxis::Primary), 0, 0, 0);
    let c = p.push_trace(bar(Orient::Horizontal, YAxis::Primary), 0, 0, 0);
    let d = p.push_trace(bar(Orient::Vertical, YAxis::Y2), 0, 0, 0);
    assert_eq!(p.bar_slot(a), (0, 2));
    assert_eq!(p.bar_slot(b), (1, 2));
    assert_eq!(p.bar_slot(c), (0, 1));
    assert_eq!(p.bar_slot(d), (0, 1));
    assert_eq!(p.bar_slot(line), (0, 1), "a line is not a bar");
    assert_eq!(p.bar_slot(99), (0, 1));
    // Hiding a bar takes it out of its group.
    p.set_visible(a, false).unwrap();
    assert_eq!(p.bar_slot(b), (0, 1));
    // A hidden bar asking for its own slot is alone in its group.
    assert_eq!(p.bar_slot(a), (0, 1));
}

#[test]
fn kinds_report_their_dimension_and_structure() {
    let mut p = PlotState::new();
    p.push_trace(TraceKind::Line2d { axis: YAxis::Primary }, 0, 0, 0);
    assert!(!p.is_3d());
    p.push_trace(TraceKind::Mesh3d, 0, 0, 0);
    assert!(p.is_3d(), "one 3D trace switches the plot to the orbit camera");
    assert_eq!(TraceKind::Graph2d.structural_reason(), Some(("graph2d", "edges reference node indices")));
    assert_eq!(TraceKind::Heatmap2d.structural_reason(), Some(("heatmap", "a fixed grid")));
    assert_eq!(TraceKind::Scatter2d { axis: YAxis::Primary }.structural_reason(), None);
    assert!(TraceKind::Histogram2d { axis: YAxis::Primary }.is_structural());
    assert!(!bar(Orient::Vertical, YAxis::Primary).is_structural());
    assert!(TraceKind::Line3d.is_3d() && !TraceKind::Band2d { axis: YAxis::Primary }.is_3d());
}

#[test]
fn extend_remaps_selection() {
    // Two 3D scatters of two points each; the selection is B's first node.
    let mut inc = PlotState::new();
    let ha = inc.push_trace(TraceKind::Scatter3d, 2, 0, 2);
    inc.push_trace(TraceKind::Scatter3d, 2, 0, 2);
    inc.set_selected(Some(Element::Node(2)));
    inc.extend_pts(ha, 1, 1).unwrap();
    assert_eq!(inc.selected(), Some(Element::Node(3)), "selection follows the shifted flat index");
    assert_eq!(inc.node_count(), 5);
}

#[test]
fn extend_graph_renders_like_one_shot_and_keeps_flat_slots() {
    // A graph of two nodes and one edge, then a one-point scatter. Appending
    // a node and an edge to the graph moves the scatter's node up by one; the
    // edge before the append keeps its index.
    let mut p = PlotState::new();
    let g = p.push_trace(TraceKind::Graph3d, 2, 1, 2);
    p.push_trace(TraceKind::Scatter3d, 1, 0, 1);
    p.set_selected(Some(Element::Node(2)));
    p.set_hovered(Some(Element::Edge(0)));
    p.extend_graph(g, 1, 1).unwrap();
    assert_eq!(p.selected(), Some(Element::Node(3)), "downstream node index remapped");
    assert_eq!(p.hovered(), Some(Element::Edge(0)), "edge before the append keeps its index");
}

#[test]
fn graph_mutator_error_paths() {
    let mut p = PlotState::new();
    let h = p.push_trace(TraceKind::Graph3d, 2, 1, 2);
    let s = p.push_trace(TraceKind::Scatter3d, 1, 0, 1);
    assert_eq!(p.graph_positions_allowed(99, 0), Err(TraceError::UnknownTrace));
    assert_eq!(p.graph_positions_allowed(s, 1), Err(TraceError::WrongKind));
    assert_eq!(p.graph_positions_allowed(h, 1), Err(TraceError::LengthMismatch));
    assert_eq!(p.graph_colors_allowed(h, 1, None), Err(TraceError::LengthMismatch));
    assert_eq!(p.graph_colors_allowed(h, 2, Some(0)), Err(TraceError::LengthMismatch));
    assert_eq!(p.extend_graph(s, 0, 0), Err(TraceError::WrongKind));
    // The failed calls must not have desynced anything: a good call still works.
    assert_eq!(p.graph_positions_allowed(h, 2), Ok(()));
}

#[test]
fn set_point_styles_rejects_non_scatter_traces() {
    let mut p = PlotState::new();
    let bars = p.push_trace(bar(Orient::Vertical, YAxis::Primary), 0, 0, 0);
    assert_eq!(p.point_styles_allowed(bars), Err(TraceError::WrongKind));
    assert_eq!(p.point_styles_allowed(99), Err(TraceError::UnknownTrace));
    let dots = p.push_trace(TraceKind::Scatter2d { axis: YAxis::Primary }, 0, 0, 0);
    assert_eq!(p.point_styles_allowed(dots), Ok(()));
}

#[test]
fn graph2d_routes_need_one_run_per_edge_or_none() {
    let mut p = PlotState::new();
    let h = p.push_trace(TraceKind::Graph2d, 2, 1, 2);
    let g3 = p.push_trace(TraceKind::Graph3d, 2, 1, 2);
    assert_eq!(p.graph_routes_allowed(99, 0), Err(TraceError::UnknownTrace));
    assert_eq!(p.graph_routes_allowed(h, 3), Err(TraceError::LengthMismatch));
    assert_eq!(p.graph_routes_allowed(h, 1), Ok(()));
    assert_eq!(p.graph_routes_allowed(h, 0), Ok(()), "no runs restores straight edges");
    assert_eq!(p.graph_routes_allowed(g3, 1), Err(TraceError::WrongKind), "only a 2D graph has waypoints");
    assert_eq!(p.graph_colors_allowed(h, 2, Some(1)), Ok(()));
    assert_eq!(p.graph_colors_allowed(h, 2, None), Ok(()));
}

#[test]
fn error_bars_and_values_go_to_their_own_kinds() {
    let mut p = PlotState::new();
    let line = p.push_trace(TraceKind::Line2d { axis: YAxis::Primary }, 0, 0, 0);
    let bars = p.push_trace(bar(Orient::Vertical, YAxis::Primary), 0, 0, 0);
    let hist = p.push_trace(TraceKind::Histogram2d { axis: YAxis::Primary }, 0, 0, 0);
    assert_eq!(p.error_bars_allowed(line), Ok(()));
    assert_eq!(p.error_bars_allowed(bars), Err(TraceError::WrongKind));
    assert_eq!(p.error_bars_allowed(99), Err(TraceError::UnknownTrace));
    assert_eq!(p.extend_values_allowed(hist), Ok(()));
    assert_eq!(p.extend_values_allowed(line), Err(TraceError::WrongKind));
}

#[test]
fn extending_bars_rebuilds_their_flags_but_keeps_the_hosts_hide() {
    let mut p = PlotState::new();
    let b = p.push_trace(bar(Orient::Vertical, YAxis::Primary), 0, 0, 0);
    let l = p.push_trace(TraceKind::Line2d { axis: YAxis::Primary }, 0, 0, 0);
    p.set_muted(b, true).unwrap();
    p.set_muted(l, true).unwrap();
    p.set_visible(b, false).unwrap();
    assert_eq!(p.extend_xy(b), Ok(()));
    assert_eq!(p.extend_xy(l), Ok(()));
    assert!(!p.in_legend(b), "the host's hide survives the rebuild");
    p.set_visible(b, true).unwrap();
    assert!(p.is_visible(b), "the legend mute does not survive a bar rebuild");
    assert!(!p.is_visible(l), "a line keeps its mute");
    assert_eq!(p.extend_xy(99), Err(TraceError::UnknownTrace));
}

#[test]
fn hiding_keeps_the_flat_node_index_space() {
    let mut p = PlotState::new();
    let a = p.push_trace(TraceKind::Scatter3d, 2, 0, 2);
    p.push_trace(TraceKind::Graph3d, 3, 2, 3);
    p.push_trace(TraceKind::Line3d, 0, 0, 0);
    assert_eq!(p.node_count(), 5);
    p.set_visible(a, false).unwrap();
    p.set_muted(a, true).unwrap();
    assert_eq!(p.node_count(), 5, "hidden nodes still occupy the flat index space");
    // Appending to a 3D line adds no pickable nodes.
    p.set_selected(Some(Element::Node(4)));
    assert_eq!(p.extend_pts(2, 7, 7), Ok(()));
    assert_eq!(p.node_count(), 5);
    assert_eq!(p.selected(), Some(Element::Node(4)));
}

#[test]
fn graph2d_alone_hides_axes_and_show_axes_restores_them() {
    let mut p = PlotState::new();
    p.push_trace(TraceKind::Graph2d, 3, 2, 3);
    assert!(p.chrome_hidden(None), "a graph-only frame draws no axis rules");
    assert!(!p.chrome_hidden(Some(true)), "show_axes = true restores them");
    // One ordinary 2D trace alongside the graph brings the chrome back.
    let mut mixed = PlotState::new();
    mixed.push_trace(TraceKind::Graph2d, 3, 2, 3);
    let line = mixed.push_trace(TraceKind::Line2d { axis: YAxis::Primary }, 0, 0, 0);
    assert!(!mixed.chrome_hidden(None), "a mixed frame keeps its axes");
    // ...unless that trace is not drawn.
    mixed.set_muted(line, true).unwrap();
    assert!(mixed.chrome_hidden(None));
    // show_axes = false hides the chrome on an ordinary chart too.
    let mut chart = PlotState::new();
    chart.push_trace(TraceKind::Line2d { axis: YAxis::Primary }, 0, 0, 0);
    assert!(!chart.chrome_hidden(None));
    assert!(chart.chrome_hidden(Some(false)));
    // A frame with nothing drawn in 2D keeps its chrome.
    assert!(!PlotState::new().chrome_hidden(None));
    let mut scene = PlotState::new();
    scene.push_trace(TraceKind::Scatter3d, 1, 0, 1);
    assert!(!scene.chrome_hidden(None));
}

#[test]
fn hidden_trace_keeps_flat_slots() {
    // A two-point 3D scatter, then a two-node graph with one edge.
    let mut p = PlotState::new();
    let a = p.push_trace(TraceKind::Scatter3d, 2, 0, 2);
    let b = p.push_trace(TraceKind::Graph3d, 2, 1, 2);
    assert_eq!(p.flat_base(b), (2, 0), "B's first node is flat index 2");
    p.set_visible(a, false).unwrap();
    assert_eq!(p.node_count(), 4, "hidden nodes still occupy the flat index space");
    assert_eq!(p.flat_base(b), (2, 0), "B keeps its flat index while A is hidden");
    assert_eq!(p.flat_base(99), (4, 1), "past the last trace: everything");
}

#[test]
fn right_axes_exist_only_where_a_drawn_trace_puts_them() {
    let mut p = PlotState::new();
    p.push_trace(TraceKind::Line2d { axis: YAxis::Primary }, 0, 0, 0);
    let cpu = p.push_trace(TraceKind::Line2d { axis: YAxis::Y3 }, 0, 0, 0);
    let tok = p.push_trace(TraceKind::Scatter2d { axis: YAxis::Y2 }, 0, 0, 0);
    let tok2 = p.push_trace(bar(Orient::Vertical, YAxis::Y2), 0, 0, 0);
    assert_eq!(p.right_axis_trace(0), Some(tok), "y2 takes the first trace on it");
    assert_eq!(p.right_axis_trace(1), Some(cpu));
    p.set_visible(tok, false).unwrap();
    assert_eq!(p.right_axis_trace(0), Some(tok2), "a hidden trace gives the axis up");
    p.set_muted(tok2, true).unwrap();
    assert_eq!(p.right_axis_trace(0), None, "no drawn trace, no column");
    assert_eq!(p.right_axis_trace(7), None);
}

#[test]
fn grids_graphs_and_scenes_stay_on_the_primary_axis() {
    assert_eq!(TraceKind::Heatmap2d.axis(), YAxis::Primary);
    assert_eq!(TraceKind::Graph2d.axis(), YAxis::Primary);
    assert_eq!(TraceKind::Scatter3d.axis(), YAxis::Primary);
    assert_eq!(TraceKind::Histogram2d { axis: YAxis::Y3 }.axis(), YAxis::Y3);
    assert_eq!(bar(Orient::Horizontal, YAxis::Y2).axis(), YAxis::Y2);
}

#[test]
fn vertex_count_counts_drawn_vertices_and_survives_hiding() {
    let mut p = PlotState::new();
    let s = p.push_trace(TraceKind::Scatter3d, 4, 0, 4);
    let l = p.push_trace(TraceKind::Line3d, 0, 0, 3);
    let _b = p.push_trace(TraceKind::Line2d { axis: YAxis::Primary }, 0, 0, 0);
    assert_eq!(p.vertex_count(), 7);
    // A 3D line draws only its finite points; a scatter draws every point.
    assert_eq!(p.extend_pts(l, 5, 2), Ok(()));
    assert_eq!(p.extend_pts(s, 2, 1), Ok(()));
    assert_eq!(p.vertex_count(), 11);
    assert_eq!(p.node_count(), 6);
    // Hidden and muted traces still count.
    p.set_visible(s, false).unwrap();
    p.set_muted(l, true).unwrap();
    assert_eq!(p.vertex_count(), 11);
    let g = p.push_trace(TraceKind::Graph2d, 2, 1, 2);
    assert_eq!(p.extend_graph(g, 3, 2), Ok(()));
    assert_eq!(p.vertex_count(), 16);
}
