use plotui_core::layered::RankDir;
use plotui_core::style::BarMode;
use plotui_core::style::Colormap;
use plotui_core::style::Interp;
use plotui_core::style::NodeShape;
use plotui_core::style::Orient;
use plotui_core::style::Shape;

#[test]
fn shape_names_round_trip() {
    for name in Shape::NAMES {
        let shape = Shape::parse(name).expect(name);
        assert_eq!(Shape::NAMES[shape as usize], name);
    }
    assert_eq!(Shape::parse("blob"), None);
}

#[test]
fn open_shapes_fill_to_their_silhouette() {
    assert_eq!(Shape::Ring.filled(), Shape::Disc);
    assert_eq!(Shape::Dot.filled(), Shape::Disc);
    assert_eq!(Shape::DiamondOpen.filled(), Shape::Diamond);
    for s in [Shape::Disc, Shape::Square, Shape::Triangle, Shape::Diamond] {
        assert_eq!(s.filled(), s);
    }
}

#[test]
fn node_shape_names_and_synonyms() {
    for name in NodeShape::NAMES {
        let shape = NodeShape::parse(name).expect(name);
        assert_eq!(NodeShape::NAMES[shape as usize], name);
    }
    for name in ["box", "rect", "rectangle", "square"] {
        assert_eq!(NodeShape::parse(name), Some(NodeShape::Box));
    }
    for name in ["ellipse", "oval", "circle"] {
        assert_eq!(NodeShape::parse(name), Some(NodeShape::Ellipse));
    }
    assert_eq!(NodeShape::parse("Box"), None);
    assert_eq!(NodeShape::parse(""), None);
}

#[test]
fn bar_orient_interp_and_colormap_names_round_trip() {
    for name in BarMode::NAMES {
        assert_eq!(BarMode::NAMES[BarMode::parse(name).expect(name) as usize], name);
    }
    for name in Orient::NAMES {
        assert_eq!(Orient::NAMES[Orient::parse(name).expect(name) as usize], name);
    }
    for name in Interp::NAMES {
        assert_eq!(Interp::NAMES[Interp::parse(name).expect(name) as usize], name);
    }
    for name in Colormap::NAMES {
        assert_eq!(Colormap::NAMES[Colormap::parse(name).expect(name) as usize], name);
    }
    assert_eq!(BarMode::parse("stacked"), None);
    assert_eq!(Orient::parse("v"), Some(Orient::Vertical));
    assert_eq!(Orient::parse("h"), Some(Orient::Horizontal));
    assert_eq!(Orient::parse("x"), None);
    assert_eq!(Interp::parse("step"), None);
    assert_eq!(Colormap::parse("magma"), None);
}

#[test]
fn only_horizontal_bars_are_horizontal() {
    assert!(Orient::Horizontal.is_horizontal());
    assert!(!Orient::Vertical.is_horizontal());
}

#[test]
fn rankdir_parses_case_insensitively() {
    assert_eq!(RankDir::parse("TB"), Some(RankDir::TB));
    assert_eq!(RankDir::parse("tb"), Some(RankDir::TB));
    assert_eq!(RankDir::parse("Td"), Some(RankDir::TB));
    assert_eq!(RankDir::parse("lr"), Some(RankDir::LR));
    assert_eq!(RankDir::parse("RL"), None);
    assert_eq!(RankDir::parse("LRX"), None);
    for name in RankDir::NAMES {
        assert_eq!(RankDir::NAMES[RankDir::parse(name).expect(name) as usize], name);
    }
}
