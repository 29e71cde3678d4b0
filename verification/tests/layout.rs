use ruitachi::geometry::{Vec2, Geometry};
use ruitachi::layout::{Growth, HorizontalAlignment, VerticalAlignment, LinearPanelDirection};
use ruitachi::linear::{LinearEntry, linear_extents};
use ruitachi::builder::{TestWidgetBuilder, BoxPanelBuilder, LinearPanelBuilder,
    OverlayPanelBuilder};
use ruitachi::widget::WidgetTree;
use ruitachi::layout::Axis;

fn geom(local_size: Vec2) -> Geometry {
    Geometry {
        local_pos: Vec2 { x: 0, y: 0 },
        local_size,
        absolute_pos: Vec2 { x: 0, y: 0 },
        scale: Vec2 { x: 1, y: 1 },
    }
}

#[test]
fn linear_fit_children_absorb_slack() {
    // width 300, three fitted children of desired width 50: with no fill or
    // weighted sibling left, the fitted children absorb the slack evenly
    let entries = vec![
        LinearEntry { desired: 50, growth: Growth::Fit },
        LinearEntry { desired: 50, growth: Growth::Fit },
        LinearEntry { desired: 50, growth: Growth::Fit },
    ];
    let extents = linear_extents(300, &entries);
    assert_eq!(extents, vec![100, 100, 100]);
}

#[test]
fn linear_fill_suppresses_weighted() {
    // one fill beside two weighted children: the weighted ones are folded
    // into the fit bucket and the fill takes all the slack
    let entries = vec![
        LinearEntry { desired: 50, growth: Growth::Fill },
        LinearEntry { desired: 50, growth: Growth::Val(1) },
        LinearEntry { desired: 50, growth: Growth::Val(1) },
    ];
    let extents = linear_extents(300, &entries);
    assert_eq!(extents, vec![200, 50, 50]);
}

#[test]
fn linear_overflow_keeps_desired() {
    let entries = vec![
        LinearEntry { desired: 50, growth: Growth::Fit },
        LinearEntry { desired: 50, growth: Growth::Fill },
        LinearEntry { desired: 50, growth: Growth::Val(2) },
    ];
    let extents = linear_extents(100, &entries);
    assert_eq!(extents, vec![50, 50, 50]);
}

#[test]
fn linear_weighted_split() {
    let entries = vec![
        LinearEntry { desired: 0, growth: Growth::Val(1) },
        LinearEntry { desired: 0, growth: Growth::Val(3) },
    ];
    let extents = linear_extents(100, &entries);
    assert_eq!(extents, vec![25, 75]);
    assert_eq!(extents.iter().sum::<i64>(), 100);
}

#[test]
fn linear_remainder_goes_to_earliest() {
    let entries = vec![
        LinearEntry { desired: 0, growth: Growth::Fit },
        LinearEntry { desired: 0, growth: Growth::Fit },
        LinearEntry { desired: 0, growth: Growth::Fit },
    ];
    let extents = linear_extents(10, &entries);
    assert_eq!(extents, vec![4, 3, 3]);
    assert_eq!(extents.iter().sum::<i64>(), 10);
}

#[test]
fn box_panel_centers_child() {
    // a (20, 20) child centered in a (100, 100) region sits at (40, 40)
    let mut tree = WidgetTree::new();
    let child = TestWidgetBuilder::new().size(Vec2 { x: 20, y: 20 }).build(&mut tree);
    let panel = BoxPanelBuilder::new(child)
        .v_align(VerticalAlignment::Center)
        .h_align(HorizontalAlignment::Center)
        .build(&mut tree);
    tree.arrange_children(panel, geom(Vec2 { x: 100, y: 100 }));
    let arranged = tree.get_arranged_children(panel);
    assert_eq!(arranged.len(), 1);
    assert_eq!(arranged[0].widget, child);
    assert_eq!(arranged[0].geometry.local_pos, Vec2 { x: 40, y: 40 });
    assert_eq!(arranged[0].geometry.local_size, Vec2 { x: 20, y: 20 });
}

#[test]
fn box_panel_fill_and_bottom_right() {
    let mut tree = WidgetTree::new();
    let child = TestWidgetBuilder::new().size(Vec2 { x: 20, y: 30 }).build(&mut tree);
    let panel = BoxPanelBuilder::new(child)
        .v_align(VerticalAlignment::Bottom)
        .h_align(HorizontalAlignment::Fill)
        .build(&mut tree);
    tree.arrange_children(panel, geom(Vec2 { x: 100, y: 100 }));
    let arranged = tree.get_arranged_children(panel);
    assert_eq!(arranged[0].geometry.local_pos, Vec2 { x: 0, y: 70 });
    assert_eq!(arranged[0].geometry.local_size, Vec2 { x: 100, y: 30 });
}

#[test]
fn box_panel_override_size() {
    let mut tree = WidgetTree::new();
    let child = TestWidgetBuilder::new().size(Vec2 { x: 20, y: 20 }).build(&mut tree);
    let panel = BoxPanelBuilder::new(child)
        .override_size(Vec2 { x: 60, y: 8 })
        .build(&mut tree);
    assert_eq!(tree.get_desired_size(panel), Vec2 { x: 60, y: 8 });
}

#[test]
fn linear_panel_lays_out_back_to_back() {
    let mut tree = WidgetTree::new();
    let a = TestWidgetBuilder::new().size(Vec2 { x: 50, y: 10 }).build(&mut tree);
    let b = TestWidgetBuilder::new().size(Vec2 { x: 50, y: 10 }).build(&mut tree);
    let c = TestWidgetBuilder::new().size(Vec2 { x: 50, y: 10 }).build(&mut tree);
    let panel = LinearPanelBuilder::new(LinearPanelDirection::Horizontal)
        .slot(a, Growth::Fit)
        .slot(b, Growth::Fit)
        .slot(c, Growth::Fit)
        .build(&mut tree);
    tree.arrange_children(panel, geom(Vec2 { x: 300, y: 40 }));
    let arranged = tree.get_arranged_children(panel);
    assert_eq!(arranged.len(), 3);
    // primary extents of 100 each, cross axis filled, offsets running
    assert_eq!(arranged[0].geometry.local_pos, Vec2 { x: 0, y: 0 });
    assert_eq!(arranged[0].geometry.local_size, Vec2 { x: 100, y: 40 });
    assert_eq!(arranged[1].geometry.local_pos, Vec2 { x: 100, y: 0 });
    assert_eq!(arranged[2].geometry.local_pos, Vec2 { x: 200, y: 0 });
    // absolute positions follow the parent's
    assert_eq!(arranged[2].geometry.absolute_pos, Vec2 { x: 200, y: 0 });
}

#[test]
fn linear_panel_desired_size() {
    let mut tree = WidgetTree::new();
    let a = TestWidgetBuilder::new().size(Vec2 { x: 50, y: 10 }).build(&mut tree);
    let b = TestWidgetBuilder::new().size(Vec2 { x: 30, y: 25 }).build(&mut tree);
    let panel = LinearPanelBuilder::new(LinearPanelDirection::Horizontal)
        .slot(a, Growth::Fit)
        .slot(b, Growth::Fit)
        .build(&mut tree);
    assert_eq!(tree.get_desired_size(panel), Vec2 { x: 80, y: 25 });
}

#[test]
fn overlay_panel_stacks_full_size() {
    let mut tree = WidgetTree::new();
    let a = TestWidgetBuilder::new().size(Vec2 { x: 50, y: 10 }).build(&mut tree);
    let b = TestWidgetBuilder::new().size(Vec2 { x: 30, y: 25 }).build(&mut tree);
    let panel = OverlayPanelBuilder::new().slot(a).slot(b).build(&mut tree);
    assert_eq!(tree.get_desired_size(panel), Vec2 { x: 50, y: 25 });
    tree.arrange_children(panel, geom(Vec2 { x: 200, y: 100 }));
    let arranged = tree.get_arranged_children(panel);
    assert_eq!(arranged.len(), 2);
    for entry in &arranged {
        assert_eq!(entry.geometry.local_pos, Vec2 { x: 0, y: 0 });
        assert_eq!(entry.geometry.local_size, Vec2 { x: 200, y: 100 });
    }
}

#[test]
fn parent_back_references_are_wired() {
    let mut tree = WidgetTree::new();
    let child = TestWidgetBuilder::new().build(&mut tree);
    let panel = BoxPanelBuilder::new(child).build(&mut tree);
    assert_eq!(tree.get_parent(child), Some(panel));
    assert_eq!(tree.get_parent(panel), None);
    assert_eq!(tree.get_children(panel), vec![child]);
}

#[test]
fn linear_panel_with_no_children() {
    let mut tree = WidgetTree::new();
    let panel = LinearPanelBuilder::new(LinearPanelDirection::Vertical).build(&mut tree);
    assert_eq!(tree.get_desired_size(panel), Vec2 { x: 0, y: 0 });
    tree.arrange_children(panel, geom(Vec2 { x: 100, y: 100 }));
    assert_eq!(tree.get_arranged_children(panel).len(), 0);
}

#[test]
fn linear_zero_weights_fall_back_to_fit() {
    // weighted children whose weights sum to zero are folded into the fit
    // bucket, so the slack still splits evenly
    let entries = vec![
        LinearEntry { desired: 0, growth: Growth::Val(0) },
        LinearEntry { desired: 0, growth: Growth::Val(0) },
    ];
    let extents = linear_extents(10, &entries);
    assert_eq!(extents, vec![5, 5]);
}

#[test]
fn axis_vector_round_trip() {
    let v = Vec2 { x: 3, y: 9 };
    assert_eq!(Axis::Horizontal.get_vec_axis(v), (3, 9));
    assert_eq!(Axis::Vertical.get_vec_axis(v), (9, 3));
    assert_eq!(Axis::Vertical.create_vec(9, 3), v);
}

#[test]
fn geometry_contains_closed_corners() {
    let g = Geometry {
        local_pos: Vec2 { x: 0, y: 0 },
        local_size: Vec2 { x: 10, y: 10 },
        absolute_pos: Vec2 { x: 5, y: 5 },
        scale: Vec2 { x: 1, y: 1 },
    };
    assert!(g.contains_absolute_pos(&Vec2 { x: 5, y: 5 }));
    assert!(g.contains_absolute_pos(&Vec2 { x: 15, y: 15 }));
    assert!(!g.contains_absolute_pos(&Vec2 { x: 16, y: 16 }));
    assert!(!g.contains_absolute_pos(&Vec2 { x: 4, y: 10 }));
}
