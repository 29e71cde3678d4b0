use ruitachi::geometry::{Vec2, Geometry};
use ruitachi::events::{MouseButton, PlatformRequest, WidgetEvent};
use ruitachi::builder::{TestWidgetBuilder, ScrollPanelBuilder, ScrollBarWidgetBuilder,
    WindowWidgetBuilder, OverlayPanelBuilder, LinearPanelBuilder};
use ruitachi::layout::{Axis, ScrollPanelDirection, Growth, LinearPanelDirection};
use ruitachi::widget::{WidgetTree, WidgetKind};
use ruitachi::context::EventContext;
use ruitachi::paint::PaintCmd;
use ruitachi::scroll_bar::SCROLL_DEN;

fn geom(local_size: Vec2) -> Geometry {
    Geometry {
        local_pos: Vec2 { x: 0, y: 0 },
        local_size,
        absolute_pos: Vec2 { x: 0, y: 0 },
        scale: Vec2 { x: 1, y: 1 },
    }
}

#[test]
fn scroll_panel_overflow_and_offset() {
    // content of (500, 500) in a viewport of (300, 300), both bars present:
    // the overflow is exactly 200 per axis, and a value of one half offsets
    // the content by exactly -100 on that axis
    let mut tree = WidgetTree::new();
    let content = TestWidgetBuilder::new().size(Vec2 { x: 500, y: 500 }).build(&mut tree);
    let panel = ScrollPanelBuilder::new()
        .direction(ScrollPanelDirection::Both)
        .content(content)
        .build(&mut tree);
    let (hbar, vbar) = match &tree.nodes[panel].kind {
        WidgetKind::ScrollPanel(s) => (s.horizontal.unwrap(), s.vertical.unwrap()),
        _ => panic!("scroll panel expected"),
    };
    // the bars reserve 10 units each, so a (310, 310) region leaves a
    // (300, 300) viewport
    tree.arrange_children(panel, geom(Vec2 { x: 310, y: 310 }));
    for bar in [hbar, vbar] {
        match &tree.nodes[bar].kind {
            WidgetKind::ScrollBar(sb) => {
                assert_eq!(sb.range_start, 0);
                assert_eq!(sb.range_end, 200);
            },
            _ => panic!("scrollbar expected"),
        }
    }
    tree.set_bar_value(hbar, SCROLL_DEN / 2);
    tree.set_bar_value(vbar, SCROLL_DEN / 2);
    tree.arrange_children(panel, geom(Vec2 { x: 310, y: 310 }));
    let arranged = tree.get_arranged_children(panel);
    assert_eq!(arranged.len(), 3);
    assert_eq!(arranged[0].widget, content);
    assert_eq!(arranged[0].geometry.local_pos, Vec2 { x: -100, y: -100 });
    // the content is never shrunk below the viewport
    assert_eq!(arranged[0].geometry.local_size, Vec2 { x: 500, y: 500 });
    // the vertical bar sits along the right edge, the horizontal bar along
    // the bottom edge
    assert_eq!(arranged[1].widget, vbar);
    assert_eq!(arranged[1].geometry.local_pos, Vec2 { x: 300, y: 0 });
    assert_eq!(arranged[1].geometry.local_size, Vec2 { x: 10, y: 300 });
    assert_eq!(arranged[2].widget, hbar);
    assert_eq!(arranged[2].geometry.local_pos, Vec2 { x: 0, y: 300 });
    assert_eq!(arranged[2].geometry.local_size, Vec2 { x: 300, y: 10 });
}

#[test]
fn scroll_panel_without_overflow_hides_bars() {
    let mut tree = WidgetTree::new();
    let content = TestWidgetBuilder::new().size(Vec2 { x: 50, y: 50 }).build(&mut tree);
    let panel = ScrollPanelBuilder::new()
        .direction(ScrollPanelDirection::Both)
        .content(content)
        .build(&mut tree);
    tree.arrange_children(panel, geom(Vec2 { x: 310, y: 310 }));
    let arranged = tree.get_arranged_children(panel);
    // no overflow: only the content is arranged, at the origin, viewport
    // sized
    assert_eq!(arranged.len(), 1);
    assert_eq!(arranged[0].geometry.local_pos, Vec2 { x: 0, y: 0 });
    assert_eq!(arranged[0].geometry.local_size, Vec2 { x: 300, y: 300 });
}

#[test]
fn scroll_bar_drag_moves_value_and_captures() {
    let mut tree = WidgetTree::new();
    let bar = ScrollBarWidgetBuilder::new().direction(Axis::Vertical).build(&mut tree);
    tree.arrange_children(bar, geom(Vec2 { x: 10, y: 100 }));
    let mut ctx = EventContext::new();
    let mut platform: Vec<PlatformRequest> = Vec::new();
    let down_pos = Vec2 { x: 5, y: 0 };
    let path = tree.get_widget_path_under_position(bar, &down_pos);
    ctx.handle_mouse_button_down(&mut tree, &mut platform, &path, 0, MouseButton::Left,
        &down_pos);
    // the press captured the device for the bar
    let ci = ctx.try_get_cursor_context(0).unwrap();
    assert_eq!(ctx.cursors[ci].captured_by_widget, Some(bar));
    assert_eq!(platform,
        vec![PlatformRequest::SetCaptureCursor { cursor: 0, capture: true }]);
    // dragging half the tray: the default range is [0, 100] with a handle
    // of 10, so 50 pixels move the value by 50 * 110 / 100 / 100 of full
    let move_pos = Vec2 { x: 5, y: 50 };
    let path = tree.get_widget_path_under_position(bar, &move_pos);
    ctx.handle_mouse_move(&mut tree, &path, 0, &move_pos);
    assert_eq!(tree.bar_value(bar), 550_000);
    // the release ends the drag and frees the capture
    let path = tree.get_widget_path_under_position(bar, &move_pos);
    ctx.handle_mouse_button_up(&mut tree, &mut platform, &path, 0, MouseButton::Left,
        &move_pos);
    assert_eq!(ctx.cursors[ci].captured_by_widget, None);
    assert_eq!(platform.len(), 2);
}

#[test]
fn set_bar_value_clamps() {
    let mut tree = WidgetTree::new();
    let bar = ScrollBarWidgetBuilder::new().build(&mut tree);
    tree.set_bar_value(bar, 2 * SCROLL_DEN);
    assert_eq!(tree.bar_value(bar), SCROLL_DEN);
    tree.set_bar_value(bar, -5);
    assert_eq!(tree.bar_value(bar), 0);
}

#[test]
fn window_draw_clears_arranges_and_paints() {
    let mut tree = WidgetTree::new();
    let leaf = TestWidgetBuilder::new().size(Vec2 { x: 20, y: 20 }).build(&mut tree);
    let window = WindowWidgetBuilder::new(Some(leaf)).build(&mut tree);
    let mut cmds: Vec<PaintCmd> = Vec::new();
    tree.draw(window, Vec2 { x: 200, y: 150 }, &mut cmds);
    assert_eq!(cmds[0], PaintCmd::Clear);
    assert_eq!(cmds[1], PaintCmd::Save);
    assert_eq!(*cmds.last().unwrap(), PaintCmd::Restore);
    // the draw arranged the window's content at the full size
    let arranged = tree.get_arranged_children(window);
    assert_eq!(arranged.len(), 1);
    assert_eq!(arranged[0].widget, leaf);
    assert_eq!(arranged[0].geometry.local_size, Vec2 { x: 200, y: 150 });
    // painter state saves and restores balance out
    let saves = cmds.iter().filter(|c| matches!(c, PaintCmd::Save)).count();
    let restores = cmds.iter().filter(|c| matches!(c, PaintCmd::Restore)).count();
    assert_eq!(saves, restores);
    // the leaf painted its rectangle
    assert!(cmds.iter().any(|c| matches!(c, PaintCmd::Rect { .. })));
}

#[test]
fn window_id_round_trip() {
    let mut tree = WidgetTree::new();
    let window = WindowWidgetBuilder::new(None).build(&mut tree);
    match &tree.nodes[window].kind {
        WidgetKind::Window(s) => assert_eq!(s.window_id, None),
        _ => panic!("window expected"),
    }
    match &mut tree.nodes[window].kind {
        WidgetKind::Window(s) => s.window_id = Some(7),
        _ => panic!("window expected"),
    }
    match &tree.nodes[window].kind {
        WidgetKind::Window(s) => assert_eq!(s.window_id, Some(7)),
        _ => panic!("window expected"),
    }
}

#[test]
fn scroll_bar_paints_tray_and_handle() {
    let mut tree = WidgetTree::new();
    let bar = ScrollBarWidgetBuilder::new().direction(Axis::Vertical).build(&mut tree);
    tree.arrange_children(bar, geom(Vec2 { x: 10, y: 110 }));
    let mut cmds: Vec<PaintCmd> = Vec::new();
    let g = tree.cached_geometry(bar);
    tree.paint(bar, &g, 0, &mut cmds);
    // a tray over the whole strip, then the handle: value 0, range
    // [0, 100], handle 10, so the handle covers the first tenth
    assert_eq!(cmds.len(), 2);
    assert_eq!(cmds[0], PaintCmd::Rect {
        pos: Vec2 { x: 0, y: 0 },
        size: Vec2 { x: 10, y: 110 },
    });
    assert_eq!(cmds[1], PaintCmd::Rect {
        pos: Vec2 { x: 0, y: 0 },
        size: Vec2 { x: 10, y: 10 },
    });
}

#[test]
fn dispatch_log_records_every_delivery() {
    let mut tree = WidgetTree::new();
    let leaf = TestWidgetBuilder::new().build(&mut tree);
    assert_eq!(tree.dispatched.len(), 0);
    tree.dispatch_event(leaf, &WidgetEvent::OnCursorEnter { cursor: 4 });
    assert_eq!(tree.dispatched.len(), 1);
    assert_eq!(tree.dispatched[0].target, leaf);
    assert!(matches!(tree.dispatched[0].event, WidgetEvent::OnCursorEnter { cursor: 4 }));
}

#[test]
fn scroll_panel_clips_content_to_viewport() {
    let mut tree = WidgetTree::new();
    let content = TestWidgetBuilder::new().size(Vec2 { x: 500, y: 500 }).build(&mut tree);
    let panel = ScrollPanelBuilder::new()
        .direction(ScrollPanelDirection::Both)
        .content(content)
        .build(&mut tree);
    tree.arrange_children(panel, geom(Vec2 { x: 310, y: 310 }));
    let mut cmds: Vec<PaintCmd> = Vec::new();
    let g = tree.cached_geometry(panel);
    tree.paint(panel, &g, 0, &mut cmds);
    // the content is clipped to the viewport, not the full panel bounds,
    // and the scrollbars draw unclipped on top
    let clips: Vec<&PaintCmd> = cmds.iter().filter(|c| {
        matches!(c, PaintCmd::ClipRect(_))
    }).collect();
    assert_eq!(clips.len(), 1);
    assert_eq!(*clips[0], PaintCmd::ClipRect(Vec2 { x: 300, y: 300 }));
}

#[test]
fn overlay_panel_clips_children_to_its_bounds() {
    let mut tree = WidgetTree::new();
    let a = TestWidgetBuilder::new().build(&mut tree);
    let b = TestWidgetBuilder::new().build(&mut tree);
    let panel = OverlayPanelBuilder::new().slot(a).slot(b).build(&mut tree);
    tree.arrange_children(panel, geom(Vec2 { x: 80, y: 60 }));
    let mut cmds: Vec<PaintCmd> = Vec::new();
    let g = tree.cached_geometry(panel);
    tree.paint(panel, &g, 0, &mut cmds);
    let clips: usize = cmds.iter().filter(|c| {
        matches!(c, PaintCmd::ClipRect(Vec2 { x: 80, y: 60 }))
    }).count();
    assert_eq!(clips, 2);
}

#[test]
fn layer_counter_counts_all_descendants() {
    // a row whose first child is an overlay of two leaves: the overlay's
    // subtree consumes layers 0 and 1, so the sibling leaf paints at
    // layer 2 and the row returns the counter after all descendants
    let mut tree = WidgetTree::new();
    let a = TestWidgetBuilder::new().build(&mut tree);
    let b = TestWidgetBuilder::new().build(&mut tree);
    let overlay = OverlayPanelBuilder::new().slot(a).slot(b).build(&mut tree);
    let c = TestWidgetBuilder::new().build(&mut tree);
    let row = LinearPanelBuilder::new(LinearPanelDirection::Horizontal)
        .slot(overlay, Growth::Fill)
        .slot(c, Growth::Fit)
        .build(&mut tree);
    tree.arrange_children(row, geom(Vec2 { x: 100, y: 50 }));
    let mut cmds: Vec<PaintCmd> = Vec::new();
    let g = tree.cached_geometry(row);
    let next_layer = tree.paint(row, &g, 0, &mut cmds);
    assert_eq!(next_layer, 3);
}
