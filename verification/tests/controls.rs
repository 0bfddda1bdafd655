use plotui_core::controls::CameraControl;
use plotui_core::controls::InputMap;
use plotui_core::controls::TraceError;
use plotui_core::controls::YAxis;
use plotui_core::controls::RIGHT_AXES;

#[test]
fn right_axes_index_their_columns() {
    assert_eq!(YAxis::Primary.right_index(), None);
    assert_eq!(YAxis::Y2.right_index(), Some(0));
    assert_eq!(YAxis::Y3.right_index(), Some(1));
    assert_eq!(YAxis::default(), YAxis::Primary);
    assert!(YAxis::Y3.right_index().unwrap() < RIGHT_AXES);
}

#[test]
fn trace_errors_read_as_messages() {
    assert_eq!(TraceError::UnknownTrace.message(), "unknown trace handle");
    assert_eq!(TraceError::WrongKind.message(), "wrong trace kind for this operation");
    assert_eq!(
        TraceError::FixedShape.message(),
        "structural trace (graph/surface) cannot be extended"
    );
    assert_eq!(
        TraceError::LengthMismatch.message(),
        "per-node/per-edge array length must match the trace's node/edge count"
    );
}

#[test]
fn default_input_map_rotates_and_shift_pans() {
    let m = InputMap::default();
    assert_eq!(m.drag_x, CameraControl::Yaw);
    assert_eq!(m.drag_y, CameraControl::Pitch);
    assert_eq!(m.shift_drag_x, CameraControl::PanX);
    assert_eq!(m.shift_drag_y, CameraControl::PanY);
    assert!(!m.invert_drag_x && !m.invert_drag_y && !m.invert_shift_drag_x && !m.invert_shift_drag_y);
}
