use vstd::prelude::*;
use crate::text::str_eq;

verus! {

/// Marker silhouette for a graph node.
#[derive(Clone, Copy, Debug, Default, PartialEq, Eq, Structural)]
pub enum Shape {
    #[default]
    Disc,
    /// Outline circle with a small filled centre.
    Ring,
    Square,
    /// Apex up.
    Triangle,
    Diamond,
    /// Outline diamond.
    DiamondOpen,
    /// A smaller disc — for the least important category.
    Dot,
}

/// The wire name of a marker shape.
pub open spec fn shape_name(s: Shape) -> Seq<char> {
    match s {
        Shape::Disc => "disc"@,
        Shape::Ring => "ring"@,
        Shape::Square => "square"@,
        Shape::Triangle => "triangle"@,
        Shape::Diamond => "diamond"@,
        Shape::DiamondOpen => "diamond-open"@,
        Shape::Dot => "dot"@,
    }
}

/// The marker shape a wire name stands for, if any.
pub open spec fn shape_named(s: Seq<char>) -> Option<Shape> {
    if s == "disc"@ {
        Some(Shape::Disc)
    } else if s == "ring"@ {
        Some(Shape::Ring)
    } else if s == "square"@ {
        Some(Shape::Square)
    } else if s == "triangle"@ {
        Some(Shape::Triangle)
    } else if s == "diamond"@ {
        Some(Shape::Diamond)
    } else if s == "diamond-open"@ {
        Some(Shape::DiamondOpen)
    } else if s == "dot"@ {
        Some(Shape::Dot)
    } else {
        None
    }
}

/// The solid silhouette behind a shape: open shapes map to their filled form.
pub open spec fn shape_filled(s: Shape) -> Shape {
    match s {
        Shape::Ring | Shape::Dot => Shape::Disc,
        Shape::DiamondOpen => Shape::Diamond,
        other => other,
    }
}

impl Shape {
    /// The wire names, in declaration order — what frontends accept.
    pub const NAMES: [&'static str; 7] = [
        "disc",
        "ring",
        "square",
        "triangle",
        "diamond",
        "diamond-open",
        "dot",
    ];

    /// Parse a wire name; `None` for anything else.
    pub fn parse(name: &str) -> (r: Option<Shape>)
        ensures
            r == shape_named(name@),
    {
        if str_eq(name, "disc") {
            Some(Shape::Disc)
        } else if str_eq(name, "ring") {
            Some(Shape::Ring)
        } else if str_eq(name, "square") {
            Some(Shape::Square)
        } else if str_eq(name, "triangle") {
            Some(Shape::Triangle)
        } else if str_eq(name, "diamond") {
            Some(Shape::Diamond)
        } else if str_eq(name, "diamond-open") {
            Some(Shape::DiamondOpen)
        } else if str_eq(name, "dot") {
            Some(Shape::Dot)
        } else {
            None
        }
    }

    /// The solid silhouette behind an open shape — what hover and selection
    /// halos are drawn as.
    pub fn filled(self) -> (r: Shape)
        ensures
            r == shape_filled(self),
    {
        match self {
            Shape::Ring | Shape::Dot => Shape::Disc,
            Shape::DiamondOpen => Shape::Diamond,
            other => other,
        }
    }
}

/// Every marker shape parses back from its own wire name.
pub proof fn shape_names_round_trip(s: Shape)
    ensures
        shape_named(shape_name(s)) == Some(s),
{
    reveal_strlit("disc");
    reveal_strlit("ring");
    reveal_strlit("square");
    reveal_strlit("triangle");
    reveal_strlit("diamond");
    reveal_strlit("diamond-open");
    reveal_strlit("dot");
    assert("disc"@[0] != "ring"@[0]);
    assert("disc"@.len() == 4 && "ring"@.len() == 4 && "square"@.len() == 6);
    assert("triangle"@.len() == 8 && "diamond"@.len() == 7 && "diamond-open"@.len() == 12);
    assert("dot"@.len() == 3);
    match s {
        Shape::Disc => {},
        Shape::Ring => { assert("ring"@ != "disc"@); },
        _ => {},
    }
}

} // verus!

verus! {

/// The silhouette of a graph node box.
#[derive(Clone, Copy, Debug, Default, PartialEq, Eq, Structural)]
pub enum NodeShape {
    /// A box with rounded corners: the default.
    #[default]
    Rounded,
    /// A box with square corners.
    Box,
    /// An ellipse inscribed in the label box.
    Ellipse,
    Diamond,
}

/// The canonical wire name of a node silhouette.
pub open spec fn node_shape_name(s: NodeShape) -> Seq<char> {
    match s {
        NodeShape::Rounded => "rounded"@,
        NodeShape::Box => "box"@,
        NodeShape::Ellipse => "ellipse"@,
        NodeShape::Diamond => "diamond"@,
    }
}

/// The node silhouette a wire (or DOT `shape=`) name stands for, synonyms
/// included.
pub open spec fn node_shape_named(s: Seq<char>) -> Option<NodeShape> {
    if s == "rounded"@ {
        Some(NodeShape::Rounded)
    } else if s == "box"@ || s == "rect"@ || s == "rectangle"@ || s == "square"@ {
        Some(NodeShape::Box)
    } else if s == "ellipse"@ || s == "oval"@ || s == "circle"@ {
        Some(NodeShape::Ellipse)
    } else if s == "diamond"@ {
        Some(NodeShape::Diamond)
    } else {
        None
    }
}

impl NodeShape {
    /// The wire names, in declaration order — what frontends accept.
    pub const NAMES: [&'static str; 4] = ["rounded", "box", "ellipse", "diamond"];

    /// Parse a wire (or DOT `shape=`) name, including the DOT synonyms.
    pub fn parse(name: &str) -> (r: Option<NodeShape>)
        ensures
            r == node_shape_named(name@),
    {
        if str_eq(name, "rounded") {
            Some(NodeShape::Rounded)
        } else if str_eq(name, "box") || str_eq(name, "rect") || str_eq(name, "rectangle")
            || str_eq(name, "square") {
            Some(NodeShape::Box)
        } else if str_eq(name, "ellipse") || str_eq(name, "oval") || str_eq(name, "circle") {
            Some(NodeShape::Ellipse)
        } else if str_eq(name, "diamond") {
            Some(NodeShape::Diamond)
        } else {
            None
        }
    }
}

/// Every node silhouette parses back from its canonical wire name.
pub proof fn node_shape_names_round_trip(s: NodeShape)
    ensures
        node_shape_named(node_shape_name(s)) == Some(s),
{
    reveal_strlit("rounded");
    reveal_strlit("box");
    reveal_strlit("rect");
    reveal_strlit("rectangle");
    reveal_strlit("square");
    reveal_strlit("ellipse");
    reveal_strlit("oval");
    reveal_strlit("circle");
    reveal_strlit("diamond");
    assert("rounded"@.len() == 7 && "box"@.len() == 3 && "rect"@.len() == 4);
    assert("rectangle"@.len() == 9 && "square"@.len() == 6 && "ellipse"@.len() == 7);
    assert("oval"@.len() == 4 && "circle"@.len() == 6 && "diamond"@.len() == 7);
    assert("rounded"@[0] != "ellipse"@[0] && "rounded"@[0] != "diamond"@[0]);
    assert("ellipse"@[0] != "diamond"@[0]);
}

/// How several bar traces on one axis share their positions.
#[derive(Clone, Copy, Debug, Default, PartialEq, Eq, Structural)]
pub enum BarMode {
    /// Every trace draws at full width on its own position.
    #[default]
    Overlay,
    /// Traces sit side by side within each position's slot.
    Group,
    /// Traces stack, each starting where the one below it ended.
    Stack,
}

/// The wire name of a bar mode.
pub open spec fn bar_mode_name(m: BarMode) -> Seq<char> {
    match m {
        BarMode::Overlay => "overlay"@,
        BarMode::Group => "group"@,
        BarMode::Stack => "stack"@,
    }
}

/// The bar mode a wire name stands for, if any.
pub open spec fn bar_mode_named(s: Seq<char>) -> Option<BarMode> {
    if s == "overlay"@ {
        Some(BarMode::Overlay)
    } else if s == "group"@ {
        Some(BarMode::Group)
    } else if s == "stack"@ {
        Some(BarMode::Stack)
    } else {
        None
    }
}

impl BarMode {
    /// The wire names, in declaration order — what frontends accept.
    pub const NAMES: [&'static str; 3] = ["overlay", "group", "stack"];

    /// Parse a wire name; `None` for anything else.
    pub fn parse(name: &str) -> (r: Option<BarMode>)
        ensures
            r == bar_mode_named(name@),
    {
        if str_eq(name, "overlay") {
            Some(BarMode::Overlay)
        } else if str_eq(name, "group") {
            Some(BarMode::Group)
        } else if str_eq(name, "stack") {
            Some(BarMode::Stack)
        } else {
            None
        }
    }
}

/// Every bar mode parses back from its own wire name.
pub proof fn bar_mode_names_round_trip(m: BarMode)
    ensures
        bar_mode_named(bar_mode_name(m)) == Some(m),
{
    reveal_strlit("overlay");
    reveal_strlit("group");
    reveal_strlit("stack");
    assert("overlay"@.len() == 7 && "group"@.len() == 5 && "stack"@.len() == 5);
    assert("group"@[0] != "stack"@[0]);
}

/// Which axis a bar grows along.
#[derive(Clone, Copy, Debug, Default, PartialEq, Eq, Structural)]
pub enum Orient {
    /// Bars stand on the x axis and rise along y — the default.
    #[default]
    Vertical,
    /// Bars sit on the y axis and run along x.
    Horizontal,
}

/// The canonical wire name of an orientation.
pub open spec fn orient_name(o: Orient) -> Seq<char> {
    match o {
        Orient::Vertical => "vertical"@,
        Orient::Horizontal => "horizontal"@,
    }
}

/// The orientation a wire name (or its one-letter short form) stands for.
pub open spec fn orient_named(s: Seq<char>) -> Option<Orient> {
    if s == "vertical"@ || s == "v"@ {
        Some(Orient::Vertical)
    } else if s == "horizontal"@ || s == "h"@ {
        Some(Orient::Horizontal)
    } else {
        None
    }
}

impl Orient {
    /// The wire names, in declaration order — what frontends accept.
    pub const NAMES: [&'static str; 2] = ["vertical", "horizontal"];

    /// Parse a wire name or its one-letter short form.
    pub fn parse(name: &str) -> (r: Option<Orient>)
        ensures
            r == orient_named(name@),
    {
        if str_eq(name, "vertical") || str_eq(name, "v") {
            Some(Orient::Vertical)
        } else if str_eq(name, "horizontal") || str_eq(name, "h") {
            Some(Orient::Horizontal)
        } else {
            None
        }
    }

    /// Whether bars run along x.
    pub fn is_horizontal(self) -> (r: bool)
        ensures
            r == (self == Orient::Horizontal),
    {
        match self {
            Orient::Horizontal => true,
            Orient::Vertical => false,
        }
    }
}

/// Every orientation parses back from its own wire name.
pub proof fn orient_names_round_trip(o: Orient)
    ensures
        orient_named(orient_name(o)) == Some(o),
{
    reveal_strlit("vertical");
    reveal_strlit("v");
    reveal_strlit("horizontal");
    reveal_strlit("h");
    assert("vertical"@.len() == 8 && "v"@.len() == 1 && "horizontal"@.len() == 10);
    assert("h"@.len() == 1);
}

/// How a 2D line gets from one sample to the next.
#[derive(Clone, Copy, Debug, Default, PartialEq, Eq, Structural)]
pub enum Interp {
    #[default]
    Linear,
    /// The new value applies from the previous sample: step up, then across.
    Pre,
    /// The old value holds until the next sample: across, then step.
    Post,
    /// The step falls halfway between the two samples.
    Mid,
}

/// The wire name of an interpolation mode.
pub open spec fn interp_name(i: Interp) -> Seq<char> {
    match i {
        Interp::Linear => "linear"@,
        Interp::Pre => "pre"@,
        Interp::Post => "post"@,
        Interp::Mid => "mid"@,
    }
}

/// The interpolation mode a wire name stands for, if any.
pub open spec fn interp_named(s: Seq<char>) -> Option<Interp> {
    if s == "linear"@ {
        Some(Interp::Linear)
    } else if s == "pre"@ {
        Some(Interp::Pre)
    } else if s == "post"@ {
        Some(Interp::Post)
    } else if s == "mid"@ {
        Some(Interp::Mid)
    } else {
        None
    }
}

impl Interp {
    /// The wire names, in declaration order — what frontends accept.
    pub const NAMES: [&'static str; 4] = ["linear", "pre", "post", "mid"];

    /// Parse a wire name; `None` for anything else.
    pub fn parse(name: &str) -> (r: Option<Interp>)
        ensures
            r == interp_named(name@),
    {
        if str_eq(name, "linear") {
            Some(Interp::Linear)
        } else if str_eq(name, "pre") {
            Some(Interp::Pre)
        } else if str_eq(name, "post") {
            Some(Interp::Post)
        } else if str_eq(name, "mid") {
            Some(Interp::Mid)
        } else {
            None
        }
    }
}

/// Every interpolation mode parses back from its own wire name.
pub proof fn interp_names_round_trip(i: Interp)
    ensures
        interp_named(interp_name(i)) == Some(i),
{
    reveal_strlit("linear");
    reveal_strlit("pre");
    reveal_strlit("post");
    reveal_strlit("mid");
    assert("linear"@.len() == 6 && "pre"@.len() == 3 && "post"@.len() == 4);
    assert("mid"@.len() == 3 && "pre"@[0] != "mid"@[0]);
}

/// Height→colour ramps.
#[derive(Clone, Copy, Debug, PartialEq, Eq, Structural)]
pub enum Colormap {
    Viridis,
    Plasma,
}

/// The wire name of a colormap.
pub open spec fn colormap_name(c: Colormap) -> Seq<char> {
    match c {
        Colormap::Viridis => "viridis"@,
        Colormap::Plasma => "plasma"@,
    }
}

/// The colormap a wire name stands for, if any.
pub open spec fn colormap_named(s: Seq<char>) -> Option<Colormap> {
    if s == "viridis"@ {
        Some(Colormap::Viridis)
    } else if s == "plasma"@ {
        Some(Colormap::Plasma)
    } else {
        None
    }
}

impl Colormap {
    /// The wire names, in declaration order — what frontends accept.
    pub const NAMES: [&'static str; 2] = ["viridis", "plasma"];

    /// Parse a wire name; `None` for anything else.
    pub fn parse(name: &str) -> (r: Option<Colormap>)
        ensures
            r == colormap_named(name@),
    {
        if str_eq(name, "viridis") {
            Some(Colormap::Viridis)
        } else if str_eq(name, "plasma") {
            Some(Colormap::Plasma)
        } else {
            None
        }
    }
}

/// Every colormap parses back from its own wire name.
pub proof fn colormap_names_round_trip(c: Colormap)
    ensures
        colormap_named(colormap_name(c)) == Some(c),
{
    reveal_strlit("viridis");
    reveal_strlit("plasma");
    assert("viridis"@.len() == 7 && "plasma"@.len() == 6);
}

} // verus!
