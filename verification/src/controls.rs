use vstd::prelude::*;

verus! {

/// One camera degree of freedom a drag-gesture axis can drive.
#[derive(Clone, Copy, PartialEq, Eq, Debug, Structural)]
pub enum CameraControl {
    /// Turntable spin about the data z-axis.
    Yaw,
    /// Elevation tilt about the screen x-axis.
    Pitch,
    /// Screen-space pan, horizontal.
    PanX,
    /// Screen-space pan, vertical.
    PanY,
    /// Exponential zoom about the view centre.
    Zoom,
    /// The gesture axis does nothing.
    Off,
}

/// Which camera control each drag-gesture axis drives, and whether it is
/// applied inverted.
#[derive(Clone, Copy, PartialEq, Eq, Debug, Structural)]
pub struct InputMap {
    pub drag_x: CameraControl,
    pub drag_y: CameraControl,
    pub shift_drag_x: CameraControl,
    pub shift_drag_y: CameraControl,
    pub invert_drag_x: bool,
    pub invert_drag_y: bool,
    pub invert_shift_drag_x: bool,
    pub invert_shift_drag_y: bool,
}

impl Default for InputMap {
    /// The house feel: dragging rotates, shift-dragging pans, nothing inverted.
    fn default() -> (r: InputMap)
        ensures
            r == (InputMap {
                drag_x: CameraControl::Yaw,
                drag_y: CameraControl::Pitch,
                shift_drag_x: CameraControl::PanX,
                shift_drag_y: CameraControl::PanY,
                invert_drag_x: false,
                invert_drag_y: false,
                invert_shift_drag_x: false,
                invert_shift_drag_y: false,
            }),
    {
        InputMap {
            drag_x: CameraControl::Yaw,
            drag_y: CameraControl::Pitch,
            shift_drag_x: CameraControl::PanX,
            shift_drag_y: CameraControl::PanY,
            invert_drag_x: false,
            invert_drag_y: false,
            invert_shift_drag_x: false,
            invert_shift_drag_y: false,
        }
    }
}

/// What the range-slider hit test found under the pointer.
#[derive(Clone, Copy, PartialEq, Eq, Debug, Structural)]
pub enum RangeHit {
    LeftHandle,
    RightHandle,
    Window,
    Track,
}

/// A pickable piece of a plot: a node or an edge, by flat index.
#[derive(Clone, Copy, PartialEq, Eq, Debug, Structural)]
pub enum Element {
    Node(usize),
    Edge(usize),
}

/// Why a per-trace operation was refused.
#[derive(Clone, Copy, PartialEq, Eq, Debug, Structural)]
pub enum TraceError {
    /// No trace with that id.
    UnknownTrace,
    /// The trace exists but is the wrong dimensionality for the call.
    WrongKind,
    /// The trace's shape is structural and cannot be appended to.
    FixedShape,
    /// A per-node or per-edge array does not match the trace's count.
    LengthMismatch,
}

/// The human-readable message for each trace error.
pub open spec fn trace_error_text(e: TraceError) -> Seq<char> {
    match e {
        TraceError::UnknownTrace => "unknown trace handle"@,
        TraceError::WrongKind => "wrong trace kind for this operation"@,
        TraceError::FixedShape => "structural trace (graph/surface) cannot be extended"@,
        TraceError::LengthMismatch =>
            "per-node/per-edge array length must match the trace's node/edge count"@,
    }
}

impl TraceError {
    /// The message a user sees for this error.
    pub fn message(&self) -> (r: &'static str)
        ensures
            r@ == trace_error_text(*self),
    {
        match self {
            TraceError::UnknownTrace => "unknown trace handle",
            TraceError::WrongKind => "wrong trace kind for this operation",
            TraceError::FixedShape => "structural trace (graph/surface) cannot be extended",
            TraceError::LengthMismatch =>
                "per-node/per-edge array length must match the trace's node/edge count",
        }
    }
}

/// Which y scale a 2D series is measured against: the primary axis or one
/// of the independent right-hand axes.
#[derive(Clone, Copy, PartialEq, Eq, Default, Debug, Structural)]
pub enum YAxis {
    #[default]
    Primary,
    Y2,
    Y3,
}

/// How many right-hand axes exist (the size of every per-right-axis array).
pub const RIGHT_AXES: usize = 2;

impl YAxis {
    /// Index into per-right-axis arrays; `None` for the primary axis.
    pub fn right_index(self) -> (r: Option<usize>)
        ensures
            r == (match self {
                YAxis::Primary => None,
                YAxis::Y2 => Some(0usize),
                YAxis::Y3 => Some(1usize),
            }),
            r matches Some(i) ==> i < RIGHT_AXES,
    {
        match self {
            YAxis::Primary => None,
            YAxis::Y2 => Some(0),
            YAxis::Y3 => Some(1),
        }
    }
}

} // verus!
