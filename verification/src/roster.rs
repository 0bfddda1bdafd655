use vstd::prelude::*;
use crate::color::Rgb;
use crate::color::COLORWAY_PLOTUI;
use crate::controls::TraceError;
use crate::controls::Element;
use crate::controls::YAxis;
use crate::style::Orient;

verus! {

/// What kind of series a trace is — all the plot's bookkeeping reads of it.
/// A 2D series carries the y axis it is measured against; a bar also its
/// orientation, which with the axis decides which bars it groups and stacks
/// with.
#[derive(Clone, Copy, PartialEq, Eq, Debug, Structural)]
pub enum TraceKind {
    Scatter3d,
    Graph3d,
    Line3d,
    Surface3d,
    Mesh3d,
    Scatter2d { axis: YAxis },
    Line2d { axis: YAxis },
    Box2d { axis: YAxis },
    Band2d { axis: YAxis },
    Heatmap2d,
    Histogram2d { axis: YAxis },
    Bar2d { orient: Orient, axis: YAxis },
    Graph2d,
}

/// The trace lives in the 3D scene.
pub open spec fn kind_is_3d(k: TraceKind) -> bool {
    match k {
        TraceKind::Scatter3d | TraceKind::Graph3d | TraceKind::Line3d | TraceKind::Surface3d | TraceKind::Mesh3d => true,
        _ => false,
    }
}

/// Why a trace of this kind cannot be appended to: its wire name and the
/// reason its shape is fixed, or `None` when it extends freely.
pub open spec fn structural_text(k: TraceKind) -> Option<(Seq<char>, Seq<char>)> {
    match k {
        TraceKind::Graph3d => Some(("graph3d"@, "edges reference node indices"@)),
        TraceKind::Graph2d => Some(("graph2d"@, "edges reference node indices"@)),
        TraceKind::Surface3d => Some(("surface3d"@, "a fixed grid"@)),
        TraceKind::Mesh3d => Some(("mesh3d"@, "triangles reference vertex indices"@)),
        TraceKind::Heatmap2d => Some(("heatmap"@, "a fixed grid"@)),
        TraceKind::Box2d { .. } => Some(
            ("box"@, "its boxes are derived from grouped samples; rebuild the plot to change them"@),
        ),
        TraceKind::Histogram2d { .. } => Some(("histogram"@, "its bars are derived from a sample; append with extend_values"@)),
        _ => None,
    }
}

/// The y axis a trace of this kind is measured against. A 2D series names
/// its own; a heatmap spans both axes itself and a graph's coordinates are
/// a layout, so both stay on the primary axis, as does everything 3D.
pub open spec fn kind_axis(k: TraceKind) -> YAxis {
    match k {
        TraceKind::Scatter2d { axis } => axis,
        TraceKind::Line2d { axis } => axis,
        TraceKind::Box2d { axis } => axis,
        TraceKind::Band2d { axis } => axis,
        TraceKind::Histogram2d { axis } => axis,
        TraceKind::Bar2d { axis, .. } => axis,
        _ => YAxis::Primary,
    }
}

/// Which right-hand axis column `a` is: 0 for `y2`, 1 for `y3`, none for the
/// primary axis.
pub open spec fn right_slot(a: YAxis) -> Option<usize> {
    match a {
        YAxis::Primary => None,
        YAxis::Y2 => Some(0usize),
        YAxis::Y3 => Some(1usize),
    }
}

impl TraceKind {
    /// The y axis this trace is measured against.
    pub fn axis(self) -> (r: YAxis)
        ensures
            r == kind_axis(self),
    {
        match self {
            TraceKind::Scatter2d { axis } => axis,
            TraceKind::Line2d { axis } => axis,
            TraceKind::Box2d { axis } => axis,
            TraceKind::Band2d { axis } => axis,
            TraceKind::Histogram2d { axis } => axis,
            TraceKind::Bar2d { axis, .. } => axis,
            _ => YAxis::Primary,
        }
    }

    /// Whether this trace lives in the 3D scene; one 3D trace switches the
    /// whole plot to the orbit camera.
    pub fn is_3d(self) -> (r: bool)
        ensures
            r == kind_is_3d(self),
    {
        match self {
            TraceKind::Scatter3d | TraceKind::Graph3d | TraceKind::Line3d | TraceKind::Surface3d | TraceKind::Mesh3d => true,
            _ => false,
        }
    }

    /// Why this trace cannot be appended to: its wire name and the reason its
    /// shape is fixed, or `None` when it extends freely. Graphs, surfaces and
    /// meshes qualify because indices or grid dimensions tie their arrays
    /// together; boxes and histograms because their geometry is derived.
    pub fn structural_reason(self) -> (r: Option<(&'static str, &'static str)>)
        ensures
            match structural_text(self) {
                Some((w, why)) => r matches Some((a, b)) && a@ == w && b@ == why,
                None => r is None,
            },
    {
        match self {
            TraceKind::Graph3d => Some(("graph3d", "edges reference node indices")),
            TraceKind::Graph2d => Some(("graph2d", "edges reference node indices")),
            TraceKind::Surface3d => Some(("surface3d", "a fixed grid")),
            TraceKind::Mesh3d => Some(("mesh3d", "triangles reference vertex indices")),
            TraceKind::Heatmap2d => Some(("heatmap", "a fixed grid")),
            TraceKind::Box2d { .. } => Some(
                ("box", "its boxes are derived from grouped samples; rebuild the plot to change them"),
            ),
            TraceKind::Histogram2d { .. } => Some(("histogram", "its bars are derived from a sample; append with extend_values")),
            _ => None,
        }
    }

    /// Whether [`Self::structural_reason`] applies — the trace must be
    /// rebuilt rather than appended to.
    pub fn is_structural(self) -> (r: bool)
        ensures
            r == (structural_text(self) is Some),
    {
        self.structural_reason().is_some()
    }
}

/// What the plot keeps for each trace: its kind, the host's show/hide, the
/// viewer's legend mute, how many pickable nodes it adds to the flat node
/// index, how many graph edges it adds to the flat edge index, and how many
/// vertices it draws (its nodes, or for a 3D line, mesh or surface the
/// points with finite coordinates; none for a 2D series).
#[derive(Clone, Copy, PartialEq, Eq, Debug, Structural)]
pub struct TraceMeta {
    pub kind: TraceKind,
    pub visible: bool,
    pub muted: bool,
    pub nodes: usize,
    pub edges: usize,
    pub verts: usize,
}

/// The per-trace flags of a plot, the colour sequence new traces draw from
/// (never empty), and the highlighted elements: `selected` is drawn
/// emphasised, `hovered` lit up as clickable. Both are flat indices across
/// all traces in insertion order.
pub struct PlotState {
    meta: Vec<TraceMeta>,
    colorway: Vec<Rgb>,
    selected: Option<Element>,
    hovered: Option<Element>,
}

/// Kinds whose points are pickable nodes: 3D scatters and graphs.
pub open spec fn bears_nodes(k: TraceKind) -> bool {
    match k {
        TraceKind::Scatter3d | TraceKind::Graph3d | TraceKind::Graph2d => true,
        _ => false,
    }
}

/// Kinds with edges between their nodes.
pub open spec fn is_graph(k: TraceKind) -> bool {
    match k {
        TraceKind::Graph3d | TraceKind::Graph2d => true,
        _ => false,
    }
}

/// Kinds that draw vertices without pickable nodes: 3D lines, meshes and
/// surfaces.
pub open spec fn draws_vertices(k: TraceKind) -> bool {
    match k {
        TraceKind::Line3d | TraceKind::Mesh3d | TraceKind::Surface3d => true,
        _ => false,
    }
}

/// Only node-bearing kinds count nodes, and only graphs count edges; a
/// node-bearing kind draws a vertex per node, and a 2D series none.
pub open spec fn counts_ok(m: TraceMeta) -> bool {
    &&& !bears_nodes(m.kind) ==> m.nodes == 0
    &&& !is_graph(m.kind) ==> m.edges == 0
    &&& bears_nodes(m.kind) ==> m.verts == m.nodes
    &&& !bears_nodes(m.kind) && !draws_vertices(m.kind) ==> m.verts == 0
}

/// Vertices of the first `k` traces.
pub open spec fn vert_total(meta: Seq<TraceMeta>, k: int) -> nat
    decreases k,
{
    if k <= 0 {
        0
    } else {
        vert_total(meta, k - 1) + meta[k - 1].verts as nat
    }
}

/// Nodes of the first `k` traces: where trace `k`'s block of flat node
/// indices starts.
pub open spec fn node_total(meta: Seq<TraceMeta>, k: int) -> nat
    decreases k,
{
    if k <= 0 {
        0
    } else {
        node_total(meta, k - 1) + meta[k - 1].nodes as nat
    }
}

/// Edges of the first `k` traces: where trace `k`'s block of flat edge
/// indices starts.
pub open spec fn edge_total(meta: Seq<TraceMeta>, k: int) -> nat
    decreases k,
{
    if k <= 0 {
        0
    } else {
        edge_total(meta, k - 1) + meta[k - 1].edges as nat
    }
}

/// Where a highlighted element lands once `dn` nodes are inserted at flat
/// node index `nb` and `de` edges at flat edge index `eb`: at or past the
/// insertion point it moves up, before it it stays.
pub open spec fn shifted(el: Option<Element>, nb: int, dn: int, eb: int, de: int) -> Option<Element> {
    match el {
        Some(Element::Node(n)) => if n >= nb {
            Some(Element::Node((n + dn) as usize))
        } else {
            el
        },
        Some(Element::Edge(e)) => if e >= eb {
            Some(Element::Edge((e + de) as usize))
        } else {
            el
        },
        None => None,
    }
}

/// The moved index of [`shifted`] still fits in a `usize`.
pub open spec fn shift_fits(el: Option<Element>, nb: int, dn: int, eb: int, de: int) -> bool {
    match el {
        Some(Element::Node(n)) => n >= nb ==> n + dn <= usize::MAX,
        Some(Element::Edge(e)) => e >= eb ==> e + de <= usize::MAX,
        None => true,
    }
}

/// The answer to appending 2D samples to trace `id`: a 2D scatter, line or
/// bar takes them; a structural trace is refused as such, any other kind as
/// the wrong kind.
pub open spec fn extend_xy_verdict(meta: Seq<TraceMeta>, id: int) -> Result<(), TraceError> {
    if !(0 <= id < meta.len()) {
        Err(TraceError::UnknownTrace)
    } else {
        match meta[id].kind {
            TraceKind::Scatter2d { .. } | TraceKind::Line2d { .. } | TraceKind::Bar2d { .. } => Ok(()),
            k => if structural_text(k) is Some {
                Err(TraceError::FixedShape)
            } else {
                Err(TraceError::WrongKind)
            },
        }
    }
}

/// The answer to appending 3D points to trace `id`: a 3D scatter or line
/// takes them; a graph, surface or mesh is refused as structural, any other
/// kind as the wrong kind.
pub open spec fn extend_pts_verdict(meta: Seq<TraceMeta>, id: int) -> Result<(), TraceError> {
    if !(0 <= id < meta.len()) {
        Err(TraceError::UnknownTrace)
    } else {
        match meta[id].kind {
            TraceKind::Scatter3d | TraceKind::Line3d => Ok(()),
            TraceKind::Graph3d | TraceKind::Surface3d | TraceKind::Mesh3d => Err(TraceError::FixedShape),
            _ => Err(TraceError::WrongKind),
        }
    }
}

/// The answer to an operation that only trace kinds meeting `fits` accept.
pub open spec fn kind_verdict(meta: Seq<TraceMeta>, id: int, fits: spec_fn(TraceKind) -> bool) -> Result<(), TraceError> {
    if !(0 <= id < meta.len()) {
        Err(TraceError::UnknownTrace)
    } else if fits(meta[id].kind) {
        Ok(())
    } else {
        Err(TraceError::WrongKind)
    }
}

/// The trace at `i` is drawn: a trace the state does not know about counts
/// as drawn, and muting hides the geometry exactly like hiding does.
pub open spec fn drawn(meta: Seq<TraceMeta>, i: int) -> bool {
    !(0 <= i < meta.len()) || (meta[i].visible && !meta[i].muted)
}

/// The trace at `i` keeps a legend row: only the host's hide removes it.
pub open spec fn listed(meta: Seq<TraceMeta>, i: int) -> bool {
    !(0 <= i < meta.len()) || meta[i].visible
}

/// Bars at `j` that share `kind`'s orientation and axis and are drawn.
pub open spec fn bar_peer(meta: Seq<TraceMeta>, kind: TraceKind, j: int) -> bool {
    &&& drawn(meta, j)
    &&& match (meta[j].kind, kind) {
        (TraceKind::Bar2d { orient: o, axis: a }, TraceKind::Bar2d { orient, axis }) => o == orient && a == axis,
        _ => false,
    }
}

/// How many of the first `k` traces are drawn bar peers of `kind`.
pub open spec fn peers_before(meta: Seq<TraceMeta>, kind: TraceKind, k: int) -> nat
    decreases k,
{
    if k <= 0 {
        0
    } else {
        peers_before(meta, kind, k - 1) + (if bar_peer(meta, kind, k - 1) {
            1nat
        } else {
            0nat
        })
    }
}

proof fn lemma_peers_mono(meta: Seq<TraceMeta>, kind: TraceKind, j: int, k: int)
    requires
        0 <= j <= k,
    ensures
        peers_before(meta, kind, j) <= peers_before(meta, kind, k),
        peers_before(meta, kind, k) <= k,
    decreases k,
{
    if k > 0 {
        if j < k {
            lemma_peers_mono(meta, kind, j, k - 1);
        } else {
            lemma_peers_mono(meta, kind, j - 1, k - 1);
        }
    }
}

proof fn lemma_totals_mono(meta: Seq<TraceMeta>, j: int, k: int)
    requires
        0 <= j <= k,
    ensures
        node_total(meta, j) <= node_total(meta, k),
        edge_total(meta, j) <= edge_total(meta, k),
        vert_total(meta, j) <= vert_total(meta, k),
    decreases k,
{
    if j < k {
        lemma_totals_mono(meta, j, k - 1);
    }
}

proof fn lemma_totals_update(meta: Seq<TraceMeta>, i: int, m: TraceMeta, k: int)
    requires
        0 <= i < meta.len(),
        0 <= k <= meta.len(),
    ensures
        node_total(meta.update(i, m), k) + (if i < k {
            meta[i].nodes as int
        } else {
            0
        }) == node_total(meta, k) + (if i < k {
            m.nodes as int
        } else {
            0
        }),
        edge_total(meta.update(i, m), k) + (if i < k {
            meta[i].edges as int
        } else {
            0
        }) == edge_total(meta, k) + (if i < k {
            m.edges as int
        } else {
            0
        }),
        vert_total(meta.update(i, m), k) + (if i < k {
            meta[i].verts as int
        } else {
            0
        }) == vert_total(meta, k) + (if i < k {
            m.verts as int
        } else {
            0
        }),
    decreases k,
{
    if k > 0 {
        lemma_totals_update(meta, i, m, k - 1);
    }
}

proof fn lemma_totals_prefix(meta: Seq<TraceMeta>, m: TraceMeta, k: int)
    requires
        0 <= k <= meta.len(),
    ensures
        node_total(meta.push(m), k) == node_total(meta, k),
        edge_total(meta.push(m), k) == edge_total(meta, k),
        vert_total(meta.push(m), k) == vert_total(meta, k),
    decreases k,
{
    if k > 0 {
        lemma_totals_prefix(meta, m, k - 1);
    }
}

proof fn lemma_totals_push(meta: Seq<TraceMeta>, m: TraceMeta)
    ensures
        node_total(meta.push(m), meta.len() as int + 1) == node_total(meta, meta.len() as int) + m.nodes,
        edge_total(meta.push(m), meta.len() as int + 1) == edge_total(meta, meta.len() as int) + m.edges,
        vert_total(meta.push(m), meta.len() as int + 1) == vert_total(meta, meta.len() as int) + m.verts,
{
    lemma_totals_prefix(meta, m, meta.len() as int);
}

/// Move a highlighted element past an insertion of `dn` nodes at `nb` and
/// `de` edges at `eb`.
fn shift_element(el: Option<Element>, nb: usize, dn: usize, eb: usize, de: usize) -> (r: Option<Element>)
    requires
        shift_fits(el, nb as int, dn as int, eb as int, de as int),
    ensures
        r == shifted(el, nb as int, dn as int, eb as int, de as int),
{
    match el {
        Some(Element::Node(n)) => {
            if n >= nb {
                Some(Element::Node(n + dn))
            } else {
                el
            }
        },
        Some(Element::Edge(e)) => {
            if e >= eb {
                Some(Element::Edge(e + de))
            } else {
                el
            }
        },
        None => None,
    }
}

impl PlotState {
    /// The colour sequence is never empty, every trace counts only what its
    /// kind has, and the flat node, edge and vertex counts fit in a `usize`.
    pub closed spec fn wf(self) -> bool {
        &&& self.colorway.len() > 0
        &&& forall|i: int| 0 <= i < self.meta.len() ==> #[trigger] counts_ok(self.meta@[i])
        &&& node_total(self.meta@, self.meta.len() as int) <= usize::MAX
        &&& edge_total(self.meta@, self.meta.len() as int) <= usize::MAX
        &&& vert_total(self.meta@, self.meta.len() as int) <= usize::MAX
    }

    /// The selected element, drawn emphasised.
    pub closed spec fn selection(self) -> Option<Element> {
        self.selected
    }

    /// The hovered element, lit up as clickable.
    pub closed spec fn hover(self) -> Option<Element> {
        self.hovered
    }

    /// Each trace's flags, in insertion order.
    pub closed spec fn metas(self) -> Seq<TraceMeta> {
        self.meta@
    }

    /// The colour sequence new traces draw from.
    pub closed spec fn colors(self) -> Seq<Rgb> {
        self.colorway@
    }

    /// A plot with no traces yet, drawing from the default colorway, with
    /// nothing highlighted.
    pub fn new() -> (r: PlotState)
        ensures
            r.wf(),
            r.metas().len() == 0,
            r.colors() == COLORWAY_PLOTUI@,
            r.selection() is None,
            r.hover() is None,
    {
        let mut colorway: Vec<Rgb> = Vec::new();
        let mut i: usize = 0;
        while i < 8
            invariant
                i <= 8,
                colorway@ == COLORWAY_PLOTUI@.subrange(0, i as int),
            decreases 8 - i,
        {
            colorway.push(COLORWAY_PLOTUI[i]);
            proof {
                assert(colorway@ =~= COLORWAY_PLOTUI@.subrange(0, i + 1));
            }
            i = i + 1;
        }
        proof {
            assert(colorway@ =~= COLORWAY_PLOTUI@);
        }
        PlotState { meta: Vec::new(), colorway, selected: None, hovered: None }
    }

    /// Add a trace of `kind` with `nodes` pickable nodes, `edges` graph
    /// edges and `verts` drawn vertices, shown and not muted; its index is
    /// its stable handle.
    pub fn push_trace(&mut self, kind: TraceKind, nodes: usize, edges: usize, verts: usize) -> (id: usize)
        requires
            old(self).wf(),
            old(self).metas().len() < usize::MAX,
            counts_ok(TraceMeta { kind, visible: true, muted: false, nodes, edges, verts }),
            node_total(old(self).metas(), old(self).metas().len() as int) + nodes <= usize::MAX,
            edge_total(old(self).metas(), old(self).metas().len() as int) + edges <= usize::MAX,
            vert_total(old(self).metas(), old(self).metas().len() as int) + verts <= usize::MAX,
        ensures
            final(self).wf(),
            id == old(self).metas().len(),
            final(self).metas() == old(self).metas().push(TraceMeta { kind, visible: true, muted: false, nodes, edges, verts }),
            final(self).colors() == old(self).colors(),
            final(self).selection() == old(self).selection(),
            final(self).hover() == old(self).hover(),
    {
        let m = TraceMeta { kind, visible: true, muted: false, nodes, edges, verts };
        proof {
            lemma_totals_push(self.meta@, m);
        }
        self.meta.push(m);
        proof {
            assert forall|i: int| 0 <= i < self.meta.len() implies #[trigger] counts_ok(self.meta@[i]) by {
                if i < self.meta.len() - 1 {
                    assert(counts_ok(old(self).meta@[i]));
                }
            }
        }
        self.meta.len() - 1
    }

    /// Is this trace drawn? A trace the state does not know about is treated
    /// as drawn; muting hides the geometry exactly like hiding does.
    pub fn is_visible(&self, i: usize) -> (r: bool)
        ensures
            r == drawn(self.metas(), i as int),
    {
        if i < self.meta.len() {
            let m = self.meta[i];
            m.visible && !m.muted
        } else {
            true
        }
    }

    /// Does this trace get a legend row? Hidden traces do not; muted ones
    /// keep theirs so there is something to click to bring them back.
    pub fn in_legend(&self, i: usize) -> (r: bool)
        ensures
            r == listed(self.metas(), i as int),
    {
        if i < self.meta.len() {
            self.meta[i].visible
        } else {
            true
        }
    }

    /// Show or hide a trace. Returns whether anything changed; an unknown
    /// handle is refused and changes nothing.
    pub fn set_visible(&mut self, id: usize, visible: bool) -> (r: Result<bool, TraceError>)
        requires
            old(self).wf(),
        ensures
            final(self).wf(),
            final(self).colors() == old(self).colors(),
            id < old(self).metas().len() ==> {
                &&& r == Ok::<bool, TraceError>(old(self).metas()[id as int].visible != visible)
                &&& final(self).metas() == old(self).metas().update(id as int, TraceMeta { visible, ..old(self).metas()[id as int] })
            },
            id >= old(self).metas().len() ==> r == Err::<bool, TraceError>(TraceError::UnknownTrace) && final(self).metas() == old(self).metas(),
            final(self).selection() == old(self).selection(),
            final(self).hover() == old(self).hover(),
    {
        if id >= self.meta.len() {
            return Err(TraceError::UnknownTrace);
        }
        let m = self.meta[id];
        let changed = m.visible != visible;
        proof {
            lemma_totals_update(self.meta@, id as int, TraceMeta { visible, ..m }, self.meta.len() as int);
        }
        self.meta.set(id, TraceMeta { visible, ..m });
        proof {
            assert(counts_ok(old(self).meta@[id as int]));
            assert forall|i: int| 0 <= i < self.meta.len() implies #[trigger] counts_ok(self.meta@[i]) by {
                assert(counts_ok(old(self).meta@[i]));
            }
        }
        Ok(changed)
    }

    /// Mute or unmute a trace from the legend, keeping its row. Returns
    /// whether the trace is now shown; an unknown handle is refused.
    pub fn set_muted(&mut self, id: usize, muted: bool) -> (r: Result<bool, TraceError>)
        requires
            old(self).wf(),
        ensures
            final(self).wf(),
            final(self).colors() == old(self).colors(),
            id < old(self).metas().len() ==> {
                &&& r == Ok::<bool, TraceError>(!muted)
                &&& final(self).metas() == old(self).metas().update(id as int, TraceMeta { muted, ..old(self).metas()[id as int] })
            },
            id >= old(self).metas().len() ==> r == Err::<bool, TraceError>(TraceError::UnknownTrace) && final(self).metas() == old(self).metas(),
            final(self).selection() == old(self).selection(),
            final(self).hover() == old(self).hover(),
    {
        if id >= self.meta.len() {
            return Err(TraceError::UnknownTrace);
        }
        let m = self.meta[id];
        proof {
            lemma_totals_update(self.meta@, id as int, TraceMeta { muted, ..m }, self.meta.len() as int);
        }
        self.meta.set(id, TraceMeta { muted, ..m });
        proof {
            assert(counts_ok(old(self).meta@[id as int]));
            assert forall|i: int| 0 <= i < self.meta.len() implies #[trigger] counts_ok(self.meta@[i]) by {
                assert(counts_ok(old(self).meta@[i]));
            }
        }
        Ok(!muted)
    }

    /// Flip a trace's legend mute, returning whether it is now shown; an
    /// unknown handle is refused.
    pub fn toggle_muted(&mut self, id: usize) -> (r: Result<bool, TraceError>)
        requires
            old(self).wf(),
        ensures
            final(self).wf(),
            final(self).colors() == old(self).colors(),
            id < old(self).metas().len() ==> {
                &&& r == Ok::<bool, TraceError>(old(self).metas()[id as int].muted)
                &&& final(self).metas() == old(self).metas().update(
                    id as int,
                    TraceMeta { muted: !old(self).metas()[id as int].muted, ..old(self).metas()[id as int] },
                )
            },
            id >= old(self).metas().len() ==> r == Err::<bool, TraceError>(TraceError::UnknownTrace) && final(self).metas() == old(self).metas(),
            final(self).selection() == old(self).selection(),
            final(self).hover() == old(self).hover(),
    {
        if id >= self.meta.len() {
            return Err(TraceError::UnknownTrace);
        }
        let m = self.meta[id];
        proof {
            lemma_totals_update(self.meta@, id as int, TraceMeta { muted: !m.muted, ..m }, self.meta.len() as int);
        }
        self.meta.set(id, TraceMeta { muted: !m.muted, ..m });
        proof {
            assert(counts_ok(old(self).meta@[id as int]));
            assert forall|i: int| 0 <= i < self.meta.len() implies #[trigger] counts_ok(self.meta@[i]) by {
                assert(counts_ok(old(self).meta@[i]));
            }
        }
        Ok(m.muted)
    }

    /// The next default trace colour: colorway slots assigned in fixed order
    /// by the number of traces already added.
    pub fn next_color(&self) -> (r: Rgb)
        requires
            self.wf(),
        ensures
            self.colors().len() > 0,
            r == self.colors()[(self.metas().len() % self.colors().len()) as int],
    {
        self.colorway[self.meta.len() % self.colorway.len()]
    }

    /// Swap the colour sequence for traces added from here on; an empty
    /// list is ignored, so the sequence is never empty.
    pub fn set_colorway(&mut self, colors: Vec<Rgb>)
        requires
            old(self).wf(),
        ensures
            final(self).wf(),
            final(self).metas() == old(self).metas(),
            colors@.len() > 0 ==> final(self).colors() == colors@,
            colors@.len() == 0 ==> final(self).colors() == old(self).colors(),
            final(self).selection() == old(self).selection(),
            final(self).hover() == old(self).hover(),
    {
        if colors.len() > 0 {
            self.colorway = colors;
        }
    }

    /// An explicit colour, or the next colorway slot in fixed order.
    pub fn resolve_color(&self, color: Option<Rgb>) -> (r: Rgb)
        requires
            self.wf(),
        ensures
            self.colors().len() > 0,
            color matches Some(c) ==> r == c,
            color is None ==> r == self.colors()[(self.metas().len() % self.colors().len()) as int],
    {
        match color {
            Some(c) => c,
            None => self.next_color(),
        }
    }

    /// One 3D trace switches the whole plot to the orbit camera.
    pub fn is_3d(&self) -> (r: bool)
        ensures
            r == exists|i: int| 0 <= i < self.metas().len() && kind_is_3d(#[trigger] self.metas()[i].kind),
    {
        let mut i: usize = 0;
        while i < self.meta.len()
            invariant
                i <= self.meta.len(),
                forall|j: int| 0 <= j < i ==> !kind_is_3d(#[trigger] self.meta@[j].kind),
            decreases self.meta.len() - i,
        {
            if self.meta[i].kind.is_3d() {
                return true;
            }
            i = i + 1;
        }
        false
    }

    /// Where bar trace `ti` sits among the drawn bars that share its
    /// orientation and axis: its index among them and how many there are
    /// (at least one). Anything that is not a bar gets `(0, 1)`.
    pub fn bar_slot(&self, ti: usize) -> (r: (usize, usize))
        ensures
            ti < self.metas().len() && self.metas()[ti as int].kind is Bar2d ==> {
                let kind = self.metas()[ti as int].kind;
                let count = peers_before(self.metas(), kind, self.metas().len() as int);
                &&& r.0 == peers_before(self.metas(), kind, ti as int)
                &&& r.1 == if count == 0 {
                    1
                } else {
                    count
                }
            },
            !(ti < self.metas().len() && self.metas()[ti as int].kind is Bar2d) ==> r == (0usize, 1usize),
    {
        if ti >= self.meta.len() {
            return (0, 1);
        }
        let kind = self.meta[ti].kind;
        let (orient, axis) = match kind {
            TraceKind::Bar2d { orient, axis } => (orient, axis),
            _ => {
                return (0, 1);
            },
        };
        let ghost ms = self.meta@;
        let mut index: usize = 0;
        let mut count: usize = 0;
        let mut tj: usize = 0;
        while tj < self.meta.len()
            invariant
                tj <= self.meta.len(),
                ms == self.meta@,
                ti < ms.len(),
                kind == ms[ti as int].kind,
                kind == (TraceKind::Bar2d { orient, axis }),
                count == peers_before(ms, kind, tj as int),
                index == peers_before(ms, kind, if tj < ti { tj as int } else { ti as int }),
            decreases self.meta.len() - tj,
        {
            proof {
                lemma_peers_mono(ms, kind, tj as int, tj as int);
            }
            if self.is_visible(tj) {
                match self.meta[tj].kind {
                    TraceKind::Bar2d { orient: o, axis: a } => {
                        if o == orient && a == axis {
                            if tj < ti {
                                index = index + 1;
                            }
                            count = count + 1;
                        }
                    },
                    _ => {},
                }
            }
            tj = tj + 1;
        }
        (index, if count == 0 { 1 } else { count })
    }
}

impl PlotState {
    /// Whether 2D samples may be appended to trace `id`: a 2D scatter, line
    /// or bar takes them; a structural trace is refused as such, and any
    /// other kind as the wrong kind.
    pub fn extend_xy_allowed(&self, id: usize) -> (r: Result<(), TraceError>)
        ensures
            r == extend_xy_verdict(self.metas(), id as int),
    {
        if id >= self.meta.len() {
            return Err(TraceError::UnknownTrace);
        }
        let k = self.meta[id].kind;
        match k {
            TraceKind::Scatter2d { .. } | TraceKind::Line2d { .. } | TraceKind::Bar2d { .. } => Ok(()),
            _ => {
                if k.is_structural() {
                    Err(TraceError::FixedShape)
                } else {
                    Err(TraceError::WrongKind)
                }
            },
        }
    }

    /// Whether 3D points may be appended to trace `id`: a 3D scatter or line
    /// takes them; a graph, surface or mesh is refused as structural, and
    /// any other kind as the wrong kind.
    pub fn extend_pts_allowed(&self, id: usize) -> (r: Result<(), TraceError>)
        ensures
            r == extend_pts_verdict(self.metas(), id as int),
    {
        if id >= self.meta.len() {
            return Err(TraceError::UnknownTrace);
        }
        match self.meta[id].kind {
            TraceKind::Scatter3d | TraceKind::Line3d => Ok(()),
            TraceKind::Graph3d | TraceKind::Surface3d | TraceKind::Mesh3d => Err(TraceError::FixedShape),
            _ => Err(TraceError::WrongKind),
        }
    }
}

impl PlotState {
    /// The selected element.
    pub fn selected(&self) -> (r: Option<Element>)
        ensures
            r == self.selection(),
    {
        self.selected
    }

    /// Select an element, or clear the selection with `None`.
    pub fn set_selected(&mut self, el: Option<Element>)
        requires
            old(self).wf(),
        ensures
            final(self).wf(),
            final(self).selection() == el,
            final(self).hover() == old(self).hover(),
            final(self).metas() == old(self).metas(),
            final(self).colors() == old(self).colors(),
    {
        self.selected = el;
    }

    /// The hovered element.
    pub fn hovered(&self) -> (r: Option<Element>)
        ensures
            r == self.hover(),
    {
        self.hovered
    }

    /// Hover an element, or clear the hover with `None`.
    pub fn set_hovered(&mut self, el: Option<Element>)
        requires
            old(self).wf(),
        ensures
            final(self).wf(),
            final(self).hover() == el,
            final(self).selection() == old(self).selection(),
            final(self).metas() == old(self).metas(),
            final(self).colors() == old(self).colors(),
    {
        self.hovered = el;
    }

    /// Nodes of the first `k` traces.
    fn nodes_before(&self, k: usize) -> (r: usize)
        requires
            self.wf(),
            k <= self.metas().len(),
        ensures
            r == node_total(self.metas(), k as int),
    {
        let mut total: usize = 0;
        let mut i: usize = 0;
        while i < k
            invariant
                i <= k,
                k <= self.meta.len(),
                self.wf(),
                total == node_total(self.meta@, i as int),
            decreases k - i,
        {
            proof {
                lemma_totals_mono(self.meta@, i + 1, self.meta.len() as int);
            }
            total = total + self.meta[i].nodes;
            i = i + 1;
        }
        total
    }

    /// Graph edges of the first `k` traces.
    fn edges_before(&self, k: usize) -> (r: usize)
        requires
            self.wf(),
            k <= self.metas().len(),
        ensures
            r == edge_total(self.metas(), k as int),
    {
        let mut total: usize = 0;
        let mut i: usize = 0;
        while i < k
            invariant
                i <= k,
                k <= self.meta.len(),
                self.wf(),
                total == edge_total(self.meta@, i as int),
            decreases k - i,
        {
            proof {
                lemma_totals_mono(self.meta@, i + 1, self.meta.len() as int);
            }
            total = total + self.meta[i].edges;
            i = i + 1;
        }
        total
    }

    /// Where trace `ti`'s blocks start in the flat node and edge index
    /// spaces: the nodes and edges of the traces before it, hidden ones
    /// included. Past the last trace this is the whole count.
    pub fn flat_base(&self, ti: usize) -> (r: (usize, usize))
        requires
            self.wf(),
        ensures
            ti <= self.metas().len() ==> r == (node_total(self.metas(), ti as int) as usize, edge_total(self.metas(), ti as int) as usize),
            ti > self.metas().len() ==> r == (
                node_total(self.metas(), self.metas().len() as int) as usize,
                edge_total(self.metas(), self.metas().len() as int) as usize,
            ),
    {
        let k = if ti < self.meta.len() {
            ti
        } else {
            self.meta.len()
        };
        (self.nodes_before(k), self.edges_before(k))
    }

    /// How many pickable nodes the plot holds: the size of the flat node
    /// index space. Hidden and muted traces keep their place in it.
    pub fn node_count(&self) -> (r: usize)
        requires
            self.wf(),
        ensures
            r == node_total(self.metas(), self.metas().len() as int),
    {
        self.nodes_before(self.meta.len())
    }

    /// How many vertices the plot draws across all traces, hidden and muted
    /// ones included: the size hosts use to decide on reduced-resolution
    /// interaction frames.
    pub fn vertex_count(&self) -> (r: usize)
        requires
            self.wf(),
        ensures
            r == vert_total(self.metas(), self.metas().len() as int),
    {
        let mut total: usize = 0;
        let mut i: usize = 0;
        while i < self.meta.len()
            invariant
                i <= self.meta.len(),
                self.wf(),
                total == vert_total(self.meta@, i as int),
            decreases self.meta.len() - i,
        {
            proof {
                lemma_totals_mono(self.meta@, i + 1, self.meta.len() as int);
            }
            total = total + self.meta[i].verts;
            i = i + 1;
        }
        total
    }

    /// Append 2D samples to trace `id`. A bar trace's bookkeeping is rebuilt
    /// in full, because one new x can narrow the gap that sizes every bar:
    /// the host's show/hide survives that rebuild, the legend mute does not.
    pub fn extend_xy(&mut self, id: usize) -> (r: Result<(), TraceError>)
        requires
            old(self).wf(),
        ensures
            final(self).wf(),
            r == extend_xy_verdict(old(self).metas(), id as int),
            final(self).colors() == old(self).colors(),
            final(self).selection() == old(self).selection(),
            final(self).hover() == old(self).hover(),
            r is Ok && old(self).metas()[id as int].kind is Bar2d ==> final(self).metas() == old(self).metas().update(
                id as int,
                TraceMeta { muted: false, ..old(self).metas()[id as int] },
            ),
            !(r is Ok && old(self).metas()[id as int].kind is Bar2d) ==> final(self).metas() == old(self).metas(),
    {
        let r = self.extend_xy_allowed(id);
        if r.is_ok() {
            let m = self.meta[id];
            if let TraceKind::Bar2d { .. } = m.kind {
                proof {
                    lemma_totals_update(self.meta@, id as int, TraceMeta { muted: false, ..m }, self.meta.len() as int);
                }
                self.meta.set(id, TraceMeta { muted: false, ..m });
                proof {
                    assert(counts_ok(old(self).meta@[id as int]));
                    assert forall|i: int| 0 <= i < self.meta.len() implies #[trigger] counts_ok(self.meta@[i]) by {
                        assert(counts_ok(old(self).meta@[i]));
                    }
                }
            }
        }
        r
    }

    /// Append `count` 3D points, `finite` of them with finite coordinates,
    /// to trace `id`. On a 3D scatter they join the end of its block of flat
    /// node indices, so a highlighted node past that point moves up by
    /// `count` (edges do not move), and each is a drawn vertex; a 3D line
    /// has no pickable nodes and draws only its finite points.
    pub fn extend_pts(&mut self, id: usize, count: usize, finite: usize) -> (r: Result<(), TraceError>)
        requires
            old(self).wf(),
            id < old(self).metas().len() && old(self).metas()[id as int].kind is Scatter3d ==> {
                let nb = node_total(old(self).metas(), id + 1) as int;
                &&& node_total(old(self).metas(), old(self).metas().len() as int) + count <= usize::MAX
                &&& vert_total(old(self).metas(), old(self).metas().len() as int) + count <= usize::MAX
                &&& shift_fits(old(self).selection(), nb, count as int, 0, 0)
                &&& shift_fits(old(self).hover(), nb, count as int, 0, 0)
            },
            id < old(self).metas().len() && old(self).metas()[id as int].kind is Line3d ==> vert_total(
                old(self).metas(),
                old(self).metas().len() as int,
            ) + finite <= usize::MAX,
        ensures
            final(self).wf(),
            r == extend_pts_verdict(old(self).metas(), id as int),
            final(self).colors() == old(self).colors(),
            r is Ok && old(self).metas()[id as int].kind is Scatter3d ==> {
                let nb = node_total(old(self).metas(), id + 1) as int;
                let m = old(self).metas()[id as int];
                &&& final(self).metas() == old(self).metas().update(
                    id as int,
                    TraceMeta { nodes: (m.nodes + count) as usize, verts: (m.verts + count) as usize, ..m },
                )
                &&& final(self).selection() == shifted(old(self).selection(), nb, count as int, 0, 0)
                &&& final(self).hover() == shifted(old(self).hover(), nb, count as int, 0, 0)
            },
            r is Ok && old(self).metas()[id as int].kind is Line3d ==> {
                let m = old(self).metas()[id as int];
                &&& final(self).metas() == old(self).metas().update(id as int, TraceMeta { verts: (m.verts + finite) as usize, ..m })
                &&& final(self).selection() == old(self).selection()
                &&& final(self).hover() == old(self).hover()
            },
            r is Err ==> {
                &&& final(self).metas() == old(self).metas()
                &&& final(self).selection() == old(self).selection()
                &&& final(self).hover() == old(self).hover()
            },
    {
        let r = self.extend_pts_allowed(id);
        if r.is_ok() {
            let m = self.meta[id];
            proof {
                lemma_totals_mono(self.meta@, id + 1, self.meta.len() as int);
                lemma_totals_mono(self.meta@, id as int, id + 1);
            }
            let m2 = if let TraceKind::Scatter3d = m.kind {
                let nb = self.nodes_before(id + 1);
                self.selected = shift_element(self.selected, nb, count, 0, 0);
                self.hovered = shift_element(self.hovered, nb, count, 0, 0);
                TraceMeta { nodes: m.nodes + count, verts: m.verts + count, ..m }
            } else {
                TraceMeta { verts: m.verts + finite, ..m }
            };
            proof {
                lemma_totals_update(self.meta@, id as int, m2, self.meta.len() as int);
            }
            self.meta.set(id, m2);
            proof {
                assert(counts_ok(old(self).meta@[id as int]));
                assert forall|i: int| 0 <= i < self.meta.len() implies #[trigger] counts_ok(self.meta@[i]) by {
                    assert(counts_ok(old(self).meta@[i]));
                }
            }
        }
        r
    }

    /// Append `new_nodes` nodes and `new_edges` edges to graph trace `id`.
    /// They join the ends of its blocks of flat node and edge indices, so a
    /// highlighted node or edge past those points moves up by as many.
    pub fn extend_graph(&mut self, id: usize, new_nodes: usize, new_edges: usize) -> (r: Result<(), TraceError>)
        requires
            old(self).wf(),
            id < old(self).metas().len() && is_graph(old(self).metas()[id as int].kind) ==> {
                let nb = node_total(old(self).metas(), id + 1) as int;
                let eb = edge_total(old(self).metas(), id + 1) as int;
                &&& node_total(old(self).metas(), old(self).metas().len() as int) + new_nodes <= usize::MAX
                &&& edge_total(old(self).metas(), old(self).metas().len() as int) + new_edges <= usize::MAX
                &&& vert_total(old(self).metas(), old(self).metas().len() as int) + new_nodes <= usize::MAX
                &&& shift_fits(old(self).selection(), nb, new_nodes as int, eb, new_edges as int)
                &&& shift_fits(old(self).hover(), nb, new_nodes as int, eb, new_edges as int)
            },
        ensures
            final(self).wf(),
            r == kind_verdict(old(self).metas(), id as int, |k: TraceKind| is_graph(k)),
            final(self).colors() == old(self).colors(),
            r is Ok ==> {
                let nb = node_total(old(self).metas(), id + 1) as int;
                let eb = edge_total(old(self).metas(), id + 1) as int;
                let m = old(self).metas()[id as int];
                &&& final(self).metas() == old(self).metas().update(
                    id as int,
                    TraceMeta {
                        nodes: (m.nodes + new_nodes) as usize,
                        edges: (m.edges + new_edges) as usize,
                        verts: (m.verts + new_nodes) as usize,
                        ..m
                    },
                )
                &&& final(self).selection() == shifted(old(self).selection(), nb, new_nodes as int, eb, new_edges as int)
                &&& final(self).hover() == shifted(old(self).hover(), nb, new_nodes as int, eb, new_edges as int)
            },
            r is Err ==> {
                &&& final(self).metas() == old(self).metas()
                &&& final(self).selection() == old(self).selection()
                &&& final(self).hover() == old(self).hover()
            },
    {
        if id >= self.meta.len() {
            return Err(TraceError::UnknownTrace);
        }
        let m = self.meta[id];
        match m.kind {
            TraceKind::Graph3d | TraceKind::Graph2d => {},
            _ => {
                return Err(TraceError::WrongKind);
            },
        }
        let nb = self.nodes_before(id + 1);
        let eb = self.edges_before(id + 1);
        proof {
            lemma_totals_mono(self.meta@, id + 1, self.meta.len() as int);
        }
        self.selected = shift_element(self.selected, nb, new_nodes, eb, new_edges);
        self.hovered = shift_element(self.hovered, nb, new_nodes, eb, new_edges);
        proof {
            lemma_totals_mono(self.meta@, id as int, id + 1);
        }
        let m2 = TraceMeta { nodes: m.nodes + new_nodes, edges: m.edges + new_edges, verts: m.verts + new_nodes, ..m };
        proof {
            lemma_totals_update(self.meta@, id as int, m2, self.meta.len() as int);
        }
        self.meta.set(id, m2);
        proof {
            assert(counts_ok(old(self).meta@[id as int]));
            assert forall|i: int| 0 <= i < self.meta.len() implies #[trigger] counts_ok(self.meta@[i]) by {
                assert(counts_ok(old(self).meta@[i]));
            }
        }
        Ok(())
    }

    /// Whether a graph trace may take `count` new node positions: one per
    /// node it has.
    pub fn graph_positions_allowed(&self, id: usize, count: usize) -> (r: Result<(), TraceError>)
        ensures
            r == (if !(id < self.metas().len()) {
                Err(TraceError::UnknownTrace)
            } else if !is_graph(self.metas()[id as int].kind) {
                Err(TraceError::WrongKind)
            } else if count != self.metas()[id as int].nodes {
                Err(TraceError::LengthMismatch)
            } else {
                Ok(())
            }),
    {
        if id >= self.meta.len() {
            return Err(TraceError::UnknownTrace);
        }
        let m = self.meta[id];
        match m.kind {
            TraceKind::Graph3d | TraceKind::Graph2d => {
                if count != m.nodes {
                    Err(TraceError::LengthMismatch)
                } else {
                    Ok(())
                }
            },
            _ => Err(TraceError::WrongKind),
        }
    }

    /// Whether a 2D graph may take `starts` waypoint runs: none (straight
    /// edges again) or one per edge.
    pub fn graph_routes_allowed(&self, id: usize, starts: usize) -> (r: Result<(), TraceError>)
        ensures
            r == (if !(id < self.metas().len()) {
                Err(TraceError::UnknownTrace)
            } else if !(self.metas()[id as int].kind is Graph2d) {
                Err(TraceError::WrongKind)
            } else if starts != 0 && starts != self.metas()[id as int].edges {
                Err(TraceError::LengthMismatch)
            } else {
                Ok(())
            }),
    {
        if id >= self.meta.len() {
            return Err(TraceError::UnknownTrace);
        }
        let m = self.meta[id];
        match m.kind {
            TraceKind::Graph2d => {
                if starts != 0 && starts != m.edges {
                    Err(TraceError::LengthMismatch)
                } else {
                    Ok(())
                }
            },
            _ => Err(TraceError::WrongKind),
        }
    }

    /// Whether a graph trace may be recoloured with `colors` node colours
    /// and, when given, `edge_colors` edge colours: one per node, and one
    /// per edge.
    pub fn graph_colors_allowed(&self, id: usize, colors: usize, edge_colors: Option<usize>) -> (r: Result<(), TraceError>)
        ensures
            r == (if !(id < self.metas().len()) {
                Err(TraceError::UnknownTrace)
            } else if !is_graph(self.metas()[id as int].kind) {
                Err(TraceError::WrongKind)
            } else if colors != self.metas()[id as int].nodes {
                Err(TraceError::LengthMismatch)
            } else if edge_colors matches Some(k) && k != self.metas()[id as int].edges {
                Err(TraceError::LengthMismatch)
            } else {
                Ok(())
            }),
    {
        if id >= self.meta.len() {
            return Err(TraceError::UnknownTrace);
        }
        let m = self.meta[id];
        match m.kind {
            TraceKind::Graph3d | TraceKind::Graph2d => {
                if colors != m.nodes {
                    return Err(TraceError::LengthMismatch);
                }
                match edge_colors {
                    Some(k) => {
                        if k != m.edges {
                            return Err(TraceError::LengthMismatch);
                        }
                    },
                    None => {},
                }
                Ok(())
            },
            _ => Err(TraceError::WrongKind),
        }
    }

    /// Whether per-point colours, sizes and shapes may be set on trace
    /// `id`: only a 2D scatter takes them.
    pub fn point_styles_allowed(&self, id: usize) -> (r: Result<(), TraceError>)
        ensures
            r == kind_verdict(self.metas(), id as int, |k: TraceKind| k is Scatter2d),
    {
        if id >= self.meta.len() {
            return Err(TraceError::UnknownTrace);
        }
        match self.meta[id].kind {
            TraceKind::Scatter2d { .. } => Ok(()),
            _ => Err(TraceError::WrongKind),
        }
    }

    /// Whether error bars may be attached to trace `id`: a 2D scatter or
    /// line takes them.
    pub fn error_bars_allowed(&self, id: usize) -> (r: Result<(), TraceError>)
        ensures
            r == kind_verdict(self.metas(), id as int, |k: TraceKind| k is Scatter2d || k is Line2d),
    {
        if id >= self.meta.len() {
            return Err(TraceError::UnknownTrace);
        }
        match self.meta[id].kind {
            TraceKind::Scatter2d { .. } | TraceKind::Line2d { .. } => Ok(()),
            _ => Err(TraceError::WrongKind),
        }
    }

    /// Whether observations may be appended to trace `id`: only a histogram
    /// takes them, and rebins.
    pub fn extend_values_allowed(&self, id: usize) -> (r: Result<(), TraceError>)
        ensures
            r == kind_verdict(self.metas(), id as int, |k: TraceKind| k is Histogram2d),
    {
        if id >= self.meta.len() {
            return Err(TraceError::UnknownTrace);
        }
        match self.meta[id].kind {
            TraceKind::Histogram2d { .. } => Ok(()),
            _ => Err(TraceError::WrongKind),
        }
    }
}

/// Trace `i` is a drawn 2D trace.
pub open spec fn drawn_2d(meta: Seq<TraceMeta>, i: int) -> bool {
    0 <= i < meta.len() && !kind_is_3d(meta[i].kind) && drawn(meta, i)
}

/// Whether a 2D frame skips its grid, axis rules and tick labels: as the
/// host's `show_axes` says when it says anything, else exactly when there is
/// a drawn 2D trace and every drawn 2D trace is a 2D graph — a layout's
/// coordinates are not measurements.
pub open spec fn chrome_hidden_spec(meta: Seq<TraceMeta>, show_axes: Option<bool>) -> bool {
    match show_axes {
        Some(show) => !show,
        None => (exists|i: int| #[trigger] drawn_2d(meta, i)) && forall|i: int| #[trigger] drawn_2d(meta, i) ==> meta[i].kind is Graph2d,
    }
}

impl PlotState {
    /// Does a 2D frame of this plot skip its chrome? `show_axes` pins it on
    /// (`Some(true)`) or off (`Some(false)`); `None` hides it when every
    /// drawn 2D trace is a 2D graph and there is at least one.
    pub fn chrome_hidden(&self, show_axes: Option<bool>) -> (r: bool)
        ensures
            r == chrome_hidden_spec(self.metas(), show_axes),
    {
        if let Some(show) = show_axes {
            return !show;
        }
        let mut any = false;
        let mut i: usize = 0;
        while i < self.meta.len()
            invariant
                i <= self.meta.len(),
                show_axes is None,
                any <==> exists|j: int| 0 <= j < i && #[trigger] drawn_2d(self.meta@, j),
                forall|j: int| 0 <= j < i && #[trigger] drawn_2d(self.meta@, j) ==> self.meta@[j].kind is Graph2d,
            decreases self.meta.len() - i,
        {
            let k = self.meta[i].kind;
            let here = !k.is_3d() && self.is_visible(i);
            proof {
                assert(here == drawn_2d(self.meta@, i as int));
            }
            if here {
                any = true;
                if let TraceKind::Graph2d = k {
                } else {
                    proof {
                        assert(!(self.meta@[i as int].kind is Graph2d));
                        assert(!chrome_hidden_spec(self.metas(), show_axes));
                    }
                    return false;
                }
            }
            proof {
                assert forall|j: int| 0 <= j < i + 1 && #[trigger] drawn_2d(self.meta@, j) implies self.meta@[j].kind is Graph2d by {
                    if j == i {
                        assert(here);
                    }
                }
                if any {
                    if !here {
                        let j = choose|j: int| 0 <= j < i && #[trigger] drawn_2d(self.meta@, j);
                        assert(0 <= j < i + 1 && drawn_2d(self.meta@, j));
                    } else {
                        assert(0 <= i < i + 1 && drawn_2d(self.meta@, i as int));
                    }
                } else {
                    assert(!here);
                    assert forall|j: int| 0 <= j < i + 1 implies !#[trigger] drawn_2d(self.meta@, j) by {
                        if j < i {
                        }
                    }
                }
            }
            i = i + 1;
        }
        proof {
            if any {
                let j = choose|j: int| 0 <= j < i && #[trigger] drawn_2d(self.meta@, j);
                assert(drawn_2d(self.meta@, j));
            }
        }
        any
    }
}

/// Trace `i` is drawn and measured against right-hand axis column `k`.
pub open spec fn on_right_axis(meta: Seq<TraceMeta>, i: int, k: int) -> bool {
    0 <= i < meta.len() && drawn(meta, i) && right_slot(kind_axis(meta[i].kind)) == Some(k as usize) && 0 <= k
}

impl PlotState {
    /// The first drawn trace on right-hand axis column `k` — the one whose
    /// colour tints that axis's labels — or `None` when no drawn trace is
    /// on it, and the column is not laid out at all.
    pub fn right_axis_trace(&self, k: usize) -> (r: Option<usize>)
        ensures
            match r {
                Some(i) => on_right_axis(self.metas(), i as int, k as int) && forall|j: int|
                    0 <= j < i ==> !#[trigger] on_right_axis(self.metas(), j, k as int),
                None => forall|j: int| 0 <= j < self.metas().len() ==> !#[trigger] on_right_axis(self.metas(), j, k as int),
            },
    {
        let mut i: usize = 0;
        while i < self.meta.len()
            invariant
                i <= self.meta.len(),
                forall|j: int| 0 <= j < i ==> !#[trigger] on_right_axis(self.meta@, j, k as int),
            decreases self.meta.len() - i,
        {
            if self.is_visible(i) {
                let slot = self.meta[i].kind.axis().right_index();
                if let Some(s) = slot {
                    if s == k {
                        return Some(i);
                    }
                }
            }
            i = i + 1;
        }
        None
    }
}

/// Law: appending `dn` nodes and `de` edges to trace `id` keeps every
/// highlight on the element it named. Node `j` of trace `t` sits at flat
/// index `node_total(meta, t) + j`; after the append, shifting that index
/// gives the flat index of the same node `j` of the same trace `t`, and
/// likewise for edge `j` of trace `t`.
pub proof fn append_keeps_highlights_on_their_element(meta: Seq<TraceMeta>, id: int, dn: usize, de: usize, t: int, j: int)
    requires
        0 <= id < meta.len(),
        0 <= t < meta.len(),
        0 <= j,
        node_total(meta, meta.len() as int) + dn <= usize::MAX,
        edge_total(meta, meta.len() as int) + de <= usize::MAX,
    ensures
        ({
            let grown = meta.update(id, TraceMeta { nodes: (meta[id].nodes + dn) as usize, edges: (meta[id].edges + de) as usize, ..meta[id] });
            let nb = node_total(meta, id + 1) as int;
            let eb = edge_total(meta, id + 1) as int;
            &&& j < meta[t].nodes ==> shifted(Some(Element::Node((node_total(meta, t) + j) as usize)), nb, dn as int, eb, de as int)
                == Some(Element::Node((node_total(grown, t) + j) as usize))
            &&& j < meta[t].edges ==> shifted(Some(Element::Edge((edge_total(meta, t) + j) as usize)), nb, dn as int, eb, de as int)
                == Some(Element::Edge((edge_total(grown, t) + j) as usize))
        }),
{
    let grown = meta.update(id, TraceMeta { nodes: (meta[id].nodes + dn) as usize, edges: (meta[id].edges + de) as usize, ..meta[id] });
    lemma_totals_update(meta, id, grown[id], t);
    lemma_totals_mono(meta, t + 1, meta.len() as int);
    lemma_totals_mono(meta, id + 1, meta.len() as int);
    assert(meta[id].nodes <= node_total(meta, id + 1));
    assert(meta[id].edges <= edge_total(meta, id + 1));
    if t <= id {
        lemma_totals_mono(meta, t + 1, id + 1);
    } else {
        lemma_totals_mono(meta, id + 1, t);
    }
}

/// Law: showing, hiding, muting or unmuting a trace keeps every trace's
/// block of flat node and edge indices where it was, and the vertex count
/// as it was.
pub proof fn flags_keep_flat_indices(meta: Seq<TraceMeta>, id: int, visible: bool, muted: bool, k: int)
    requires
        0 <= id < meta.len(),
        0 <= k <= meta.len(),
    ensures
        node_total(meta.update(id, TraceMeta { visible, muted, ..meta[id] }), k) == node_total(meta, k),
        edge_total(meta.update(id, TraceMeta { visible, muted, ..meta[id] }), k) == edge_total(meta, k),
        vert_total(meta.update(id, TraceMeta { visible, muted, ..meta[id] }), k) == vert_total(meta, k),
{
    lemma_totals_update(meta, id, TraceMeta { visible, muted, ..meta[id] }, k);
}

/// Law: muting a trace twice from the legend leaves every flag as it was,
/// and each toggle reports the shown state it left behind.
pub proof fn toggle_twice_restores(m: TraceMeta)
    ensures
        (TraceMeta { muted: !(TraceMeta { muted: !m.muted, ..m }).muted, ..(TraceMeta { muted: !m.muted, ..m }) }) == m,
{
}

/// Law: a drawn trace always keeps its legend row.
pub proof fn drawn_traces_are_listed(meta: Seq<TraceMeta>, i: int)
    ensures
        drawn(meta, i) ==> listed(meta, i),
{
}

/// Law: a drawn bar's slot index is below the size of its group.
pub proof fn bar_slot_index_below_count(meta: Seq<TraceMeta>, ti: int)
    requires
        0 <= ti < meta.len(),
        meta[ti].kind is Bar2d,
        drawn(meta, ti),
    ensures
        peers_before(meta, meta[ti].kind, ti) < peers_before(meta, meta[ti].kind, meta.len() as int),
{
    let kind = meta[ti].kind;
    assert(bar_peer(meta, kind, ti));
    lemma_peers_mono(meta, kind, ti + 1, meta.len() as int);
}

} // verus!
