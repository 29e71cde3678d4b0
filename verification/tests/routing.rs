use ruitachi::geometry::{Vec2, Geometry};
use ruitachi::events::{WidgetEvent, MouseButton, Reply, WidgetFocusChange, PlatformRequest,
    conv_mouse_button};
use ruitachi::builder::{TestWidgetBuilder, BoxPanelBuilder, OverlayPanelBuilder};
use ruitachi::widget::WidgetTree;
use ruitachi::context::EventContext;

fn geom(local_size: Vec2) -> Geometry {
    Geometry {
        local_pos: Vec2 { x: 0, y: 0 },
        local_size,
        absolute_pos: Vec2 { x: 0, y: 0 },
        scale: Vec2 { x: 1, y: 1 },
    }
}

#[test]
fn conv_mouse_button_codes() {
    assert_eq!(conv_mouse_button(272), MouseButton::Left);
    assert_eq!(conv_mouse_button(273), MouseButton::Right);
    assert_eq!(conv_mouse_button(274), MouseButton::Middle);
    assert_eq!(conv_mouse_button(7), MouseButton::Other(7));
}

#[test]
fn reply_builders_carry_requests() {
    let r = Reply::handled().capture_cursor(3);
    assert!(r.handled);
    assert_eq!(r.capture_cursor, Some(3));
    assert_eq!(r.release_cursor, None);
    let u = Reply::unhandled();
    assert!(!u.handled);
    assert!(u.take_focus.is_none());
    let f = Reply::handled().take_focus(WidgetFocusChange::AllKeyboards);
    assert!(matches!(f.take_focus, Some(WidgetFocusChange::AllKeyboards)));
}

#[test]
fn hit_path_tests_top_first() {
    let mut tree = WidgetTree::new();
    let bottom = TestWidgetBuilder::new().build(&mut tree);
    let top = TestWidgetBuilder::new().build(&mut tree);
    let panel = OverlayPanelBuilder::new().slot(bottom).slot(top).build(&mut tree);
    tree.arrange_children(panel, geom(Vec2 { x: 100, y: 100 }));
    let path = tree.get_widget_path_under_position(panel, &Vec2 { x: 50, y: 50 });
    assert_eq!(path.widget, panel);
    assert_eq!(path.children.len(), 2);
    // children painted later are tested first
    assert_eq!(path.children[0].widget, top);
    assert_eq!(path.children[1].widget, bottom);
    let order = path.bubble();
    assert_eq!(order, vec![top, bottom, panel]);
}

#[test]
fn hit_path_misses_outside_point() {
    let mut tree = WidgetTree::new();
    let child = TestWidgetBuilder::new().size(Vec2 { x: 20, y: 20 }).build(&mut tree);
    let panel = BoxPanelBuilder::new(child).build(&mut tree);
    tree.arrange_children(panel, geom(Vec2 { x: 100, y: 100 }));
    // the child sits at (0, 0)..(20, 20); a point past it hits only the panel
    let path = tree.get_widget_path_under_position(panel, &Vec2 { x: 50, y: 50 });
    assert_eq!(path.children.len(), 0);
    // the closed top-left corner is contained
    let path2 = tree.get_widget_path_under_position(panel, &Vec2 { x: 0, y: 0 });
    assert_eq!(path2.children.len(), 1);
    // the closed bottom-right corner is contained, one unit past is not
    let path3 = tree.get_widget_path_under_position(panel, &Vec2 { x: 20, y: 20 });
    assert_eq!(path3.children.len(), 1);
    let path4 = tree.get_widget_path_under_position(panel, &Vec2 { x: 21, y: 21 });
    assert_eq!(path4.children.len(), 0);
}

#[test]
fn click_confirms_inner_widget_once() {
    // a leaf inside a box panel: only the leaf consumes clicks; one press
    // and release yields exactly one click, on the leaf, which takes focus
    let mut tree = WidgetTree::new();
    let leaf = TestWidgetBuilder::new().size(Vec2 { x: 100, y: 100 }).build(&mut tree);
    let panel = BoxPanelBuilder::new(leaf).build(&mut tree);
    tree.arrange_children(panel, geom(Vec2 { x: 100, y: 100 }));
    let mut ctx = EventContext::new();
    let mut platform: Vec<PlatformRequest> = Vec::new();
    let pos = Vec2 { x: 10, y: 10 };
    let path = tree.get_widget_path_under_position(panel, &pos);
    ctx.handle_mouse_button_down(&mut tree, &mut platform, &path, 0, MouseButton::Left, &pos);
    let path = tree.get_widget_path_under_position(panel, &pos);
    let clicked = ctx.handle_mouse_button_up(
        &mut tree, &mut platform, &path, 0, MouseButton::Left, &pos);
    assert_eq!(clicked, Some(leaf));
    let mut clicks = 0;
    let mut click_target = 0;
    for r in &tree.dispatched {
        if let WidgetEvent::OnClick { .. } = r.event {
            clicks += 1;
            click_target = r.target;
        }
    }
    assert_eq!(clicks, 1);
    assert_eq!(click_target, leaf);
    // the leaf's click counter advanced and focus followed the click
    let ki = ctx.try_get_keyboard_context(0).unwrap();
    assert_eq!(ctx.keyboards[ki].focused_widget, Some(leaf));
}

#[test]
fn unconfirmed_click_clears_focus() {
    let mut tree = WidgetTree::new();
    let leaf = TestWidgetBuilder::new()
        .size(Vec2 { x: 100, y: 100 })
        .handle_click(false)
        .handle_buttons(false)
        .build(&mut tree);
    let panel = BoxPanelBuilder::new(leaf).build(&mut tree);
    tree.arrange_children(panel, geom(Vec2 { x: 100, y: 100 }));
    let mut ctx = EventContext::new();
    let mut platform: Vec<PlatformRequest> = Vec::new();
    ctx.change_focus(&mut tree, 0, Some(leaf));
    let pos = Vec2 { x: 10, y: 10 };
    let path = tree.get_widget_path_under_position(panel, &pos);
    ctx.handle_mouse_button_down(&mut tree, &mut platform, &path, 0, MouseButton::Left, &pos);
    let path = tree.get_widget_path_under_position(panel, &pos);
    let clicked = ctx.handle_mouse_button_up(
        &mut tree, &mut platform, &path, 0, MouseButton::Left, &pos);
    assert_eq!(clicked, None);
    let ki = ctx.try_get_keyboard_context(0).unwrap();
    assert_eq!(ctx.keyboards[ki].focused_widget, None);
}

#[test]
fn cursor_enter_before_move_and_leave_balance() {
    let mut tree = WidgetTree::new();
    let leaf = TestWidgetBuilder::new().size(Vec2 { x: 100, y: 100 }).build(&mut tree);
    let panel = BoxPanelBuilder::new(leaf).build(&mut tree);
    tree.arrange_children(panel, geom(Vec2 { x: 100, y: 100 }));
    let mut ctx = EventContext::new();
    let pos = Vec2 { x: 10, y: 10 };
    let path = tree.get_widget_path_under_position(panel, &pos);
    ctx.handle_mouse_move(&mut tree, &path, 0, &pos);
    // the leaf entered before it saw the move
    let mut saw_enter_at = usize::MAX;
    let mut saw_move_at = usize::MAX;
    for (i, r) in tree.dispatched.iter().enumerate() {
        if r.target == leaf {
            match r.event {
                WidgetEvent::OnCursorEnter { cursor } => {
                    assert_eq!(cursor, 0);
                    if saw_enter_at == usize::MAX {
                        saw_enter_at = i;
                    }
                },
                WidgetEvent::OnCursorMove { .. } => {
                    if saw_move_at == usize::MAX {
                        saw_move_at = i;
                    }
                },
                _ => {},
            }
        }
    }
    assert!(saw_enter_at < saw_move_at);
    // a second move over the same spot enters nobody again
    let path = tree.get_widget_path_under_position(panel, &pos);
    ctx.handle_mouse_move(&mut tree, &path, 0, &pos);
    let enters: usize = tree.dispatched.iter().filter(|r| {
        r.target == leaf && matches!(r.event, WidgetEvent::OnCursorEnter { .. })
    }).count();
    assert_eq!(enters, 1);
    // the cursor leaves all widgets: every enter is balanced by a leave
    ctx.handle_cursor_leave(&mut tree, 0);
    for w in [leaf, panel] {
        let e = tree.dispatched.iter().filter(|r| {
            r.target == w && matches!(r.event, WidgetEvent::OnCursorEnter { .. })
        }).count();
        let l = tree.dispatched.iter().filter(|r| {
            r.target == w && matches!(r.event, WidgetEvent::OnCursorLeave { .. })
        }).count();
        assert_eq!(e, l);
    }
    let ci = ctx.try_get_cursor_context(0).unwrap();
    assert!(ctx.cursors[ci].last_over_widgets.is_empty());
}

#[test]
fn capture_is_exclusive_until_released() {
    let mut tree = WidgetTree::new();
    let a = TestWidgetBuilder::new().build(&mut tree);
    let b = TestWidgetBuilder::new().build(&mut tree);
    let mut ctx = EventContext::new();
    let mut platform: Vec<PlatformRequest> = Vec::new();
    ctx.process_reply(&mut tree, a, &Reply::handled().capture_cursor(0), &mut platform);
    let ci = ctx.try_get_cursor_context(0).unwrap();
    assert_eq!(ctx.cursors[ci].captured_by_widget, Some(a));
    assert_eq!(platform, vec![PlatformRequest::SetCaptureCursor { cursor: 0, capture: true }]);
    // a competing capture request is a no-op
    ctx.process_reply(&mut tree, b, &Reply::handled().capture_cursor(0), &mut platform);
    assert_eq!(ctx.cursors[ci].captured_by_widget, Some(a));
    assert_eq!(platform.len(), 1);
    // only the holder can release
    ctx.process_reply(&mut tree, b, &Reply::handled().release_cursor(0), &mut platform);
    assert_eq!(ctx.cursors[ci].captured_by_widget, Some(a));
    assert_eq!(platform.len(), 1);
    ctx.process_reply(&mut tree, a, &Reply::handled().release_cursor(0), &mut platform);
    assert_eq!(ctx.cursors[ci].captured_by_widget, None);
    assert_eq!(platform.len(), 2);
    assert_eq!(platform[1], PlatformRequest::SetCaptureCursor { cursor: 0, capture: false });
    // after the release the device can be captured anew
    ctx.process_reply(&mut tree, b, &Reply::handled().capture_cursor(0), &mut platform);
    assert_eq!(ctx.cursors[ci].captured_by_widget, Some(b));
}

#[test]
fn captured_device_bypasses_hit_testing() {
    let mut tree = WidgetTree::new();
    let leaf = TestWidgetBuilder::new().size(Vec2 { x: 100, y: 100 }).build(&mut tree);
    let other = TestWidgetBuilder::new().size(Vec2 { x: 100, y: 100 }).build(&mut tree);
    let panel = OverlayPanelBuilder::new().slot(leaf).slot(other).build(&mut tree);
    tree.arrange_children(panel, geom(Vec2 { x: 100, y: 100 }));
    let mut ctx = EventContext::new();
    let mut platform: Vec<PlatformRequest> = Vec::new();
    ctx.process_reply(&mut tree, leaf, &Reply::handled().capture_cursor(0), &mut platform);
    let before = tree.dispatched.len();
    let pos = Vec2 { x: 10, y: 10 };
    let path = tree.get_widget_path_under_position(panel, &pos);
    ctx.handle_mouse_move(&mut tree, &path, 0, &pos);
    // only the capturing widget saw the move
    assert_eq!(tree.dispatched.len(), before + 1);
    assert_eq!(tree.dispatched[before].target, leaf);
    assert!(matches!(tree.dispatched[before].event, WidgetEvent::OnCursorMove { .. }));
}

#[test]
fn focus_hand_over_unfocuses_first() {
    let mut tree = WidgetTree::new();
    let a = TestWidgetBuilder::new().build(&mut tree);
    let b = TestWidgetBuilder::new().build(&mut tree);
    let mut ctx = EventContext::new();
    ctx.change_focus(&mut tree, 0, Some(a));
    let before = tree.dispatched.len();
    ctx.change_focus(&mut tree, 0, Some(b));
    // the old holder is unfocused before the new holder is focused
    assert_eq!(tree.dispatched.len(), before + 2);
    assert_eq!(tree.dispatched[before].target, a);
    assert!(matches!(tree.dispatched[before].event, WidgetEvent::OnUnfocus { keyboard: 0 }));
    assert_eq!(tree.dispatched[before + 1].target, b);
    assert!(matches!(tree.dispatched[before + 1].event, WidgetEvent::OnFocus { keyboard: 0 }));
    // afterwards exactly b is focused
    let ki = ctx.try_get_keyboard_context(0).unwrap();
    assert_eq!(ctx.keyboards[ki].focused_widget, Some(b));
    // focusing the focused widget again dispatches nothing
    let quiet = tree.dispatched.len();
    ctx.change_focus(&mut tree, 0, Some(b));
    assert_eq!(tree.dispatched.len(), quiet);
}

#[test]
fn keys_go_to_the_focused_widget_only() {
    let mut tree = WidgetTree::new();
    let a = TestWidgetBuilder::new().build(&mut tree);
    let mut ctx = EventContext::new();
    // nobody focused: the key press goes nowhere
    ctx.handle_key_down(&mut tree, 0, 30, Some(65));
    assert_eq!(tree.dispatched.len(), 0);
    ctx.change_focus(&mut tree, 0, Some(a));
    let before = tree.dispatched.len();
    ctx.handle_key_down(&mut tree, 0, 30, Some(65));
    ctx.handle_key_up(&mut tree, 0, 30, Some(65));
    ctx.handle_text(&mut tree, 0, 'a');
    assert_eq!(tree.dispatched.len(), before + 3);
    assert!(matches!(tree.dispatched[before].event,
        WidgetEvent::OnKeyDown { keyboard: 0, key_physical: 30, key: Some(65) }));
    assert_eq!(tree.dispatched[before + 1].target, a);
    assert!(matches!(tree.dispatched[before + 2].event,
        WidgetEvent::OnText { keyboard: 0, character: 'a' }));
}

#[test]
fn click_counter_advances_on_consumed_click() {
    let mut tree = WidgetTree::new();
    let leaf = TestWidgetBuilder::new().build(&mut tree);
    let reply = tree.dispatch_event(leaf, &WidgetEvent::OnClick {
        mouse: 0,
        button: MouseButton::Left,
        pos: Vec2 { x: 1, y: 1 },
    });
    assert!(reply.handled);
    match &tree.nodes[leaf].kind {
        ruitachi::widget::WidgetKind::TestWidget(s) => assert_eq!(s.counter, 1),
        _ => panic!("leaf expected"),
    }
}

#[test]
fn first_consumed_click_is_the_confirmed_target() {
    // two stacked leaves both consume clicks but not buttons: the press
    // records both as pending, the release dispatches a click to each, and
    // the first consumed one - the topmost - is the confirmed target
    let mut tree = WidgetTree::new();
    let bottom = TestWidgetBuilder::new()
        .size(Vec2 { x: 100, y: 100 })
        .handle_buttons(false)
        .build(&mut tree);
    let top = TestWidgetBuilder::new()
        .size(Vec2 { x: 100, y: 100 })
        .handle_buttons(false)
        .build(&mut tree);
    let panel = OverlayPanelBuilder::new().slot(bottom).slot(top).build(&mut tree);
    tree.arrange_children(panel, geom(Vec2 { x: 100, y: 100 }));
    let mut ctx = EventContext::new();
    let mut platform: Vec<PlatformRequest> = Vec::new();
    let pos = Vec2 { x: 10, y: 10 };
    let path = tree.get_widget_path_under_position(panel, &pos);
    ctx.handle_mouse_button_down(&mut tree, &mut platform, &path, 0, MouseButton::Left, &pos);
    let path = tree.get_widget_path_under_position(panel, &pos);
    let clicked = ctx.handle_mouse_button_up(
        &mut tree, &mut platform, &path, 0, MouseButton::Left, &pos);
    assert_eq!(clicked, Some(top));
    // focus follows the confirmed target only
    let ki = ctx.try_get_keyboard_context(0).unwrap();
    assert_eq!(ctx.keyboards[ki].focused_widget, Some(top));
}

#[test]
fn child_geometry_carries_the_scale() {
    let mut tree = WidgetTree::new();
    let child = TestWidgetBuilder::new().size(Vec2 { x: 20, y: 20 }).build(&mut tree);
    let panel = BoxPanelBuilder::new(child).build(&mut tree);
    tree.arrange_children(panel, geom(Vec2 { x: 100, y: 100 }));
    let arranged = tree.get_arranged_children(panel);
    assert_eq!(arranged[0].geometry.scale, Vec2 { x: 1, y: 1 });
}
