use hermes_tui::mouse::{
    ChatMouseAction, ChatMouseHandler, InputMouseAction, InputMouseHandler, MouseButton, MouseContext,
    MouseEvent, MouseEventKind, ToolbarButton, ToolbarMouseAction, ToolbarMouseHandler,
};

fn event(kind: MouseEventKind, column: u16, row: u16) -> MouseEvent {
    MouseEvent { kind, column, row }
}

#[test]
fn test_mouse_context_update() {
    let mut context = MouseContext::new();
    let down_event = event(MouseEventKind::Down(MouseButton::Left), 10, 5);
    context.update(&down_event);
    assert_eq!(context.position(), (10, 5));
    assert!(context.is_button_pressed(MouseButton::Left));
    assert_eq!(context.drag_start(), Some((10, 5)));
}

#[test]
fn test_mouse_context_double_click() {
    let mut context = MouseContext::new();
    let first_click = event(MouseEventKind::Down(MouseButton::Left), 10, 5);
    context.update(&first_click);
    let second_click = event(MouseEventKind::Down(MouseButton::Left), 10, 5);
    assert!(context.check_double_click(&second_click));
}

#[test]
fn test_chat_mouse_handler() {
    let handler = ChatMouseHandler::new();
    let click_event = event(MouseEventKind::Down(MouseButton::Left), 5, 5);
    let scroll_up = event(MouseEventKind::ScrollUp, 5, 5);
    let action = handler.handle_chat_mouse(&click_event, (0, 0, 100, 100), 10, 0, 10);
    match action {
        ChatMouseAction::MessageClick(_) => {}
        _ => panic!("Expected MessageClick"),
    }
    assert_eq!(handler.handle_chat_mouse(&scroll_up, (0, 0, 100, 100), 10, 0, 10), ChatMouseAction::ScrollUp);
}

#[test]
fn test_input_mouse_handler() {
    let handler = InputMouseHandler::new();
    let click_event = event(MouseEventKind::Down(MouseButton::Left), 5, 0);
    let (action, pos) = handler.handle_input_mouse(&click_event, (0, 0, 100, 1), 50);
    match action {
        InputMouseAction::SetCursor(p) => {
            assert_eq!(p, 5);
            assert_eq!(pos, Some(5));
        }
        _ => panic!("Expected SetCursor"),
    }
}

// ----- further cases -----

#[test]
fn release_forgets_only_that_button() {
    let mut context = MouseContext::new();
    context.update(&event(MouseEventKind::Down(MouseButton::Left), 1, 1));
    context.update(&event(MouseEventKind::Down(MouseButton::Right), 1, 1));
    context.update(&event(MouseEventKind::Up(MouseButton::Left), 2, 3));
    assert!(!context.is_button_pressed(MouseButton::Left));
    assert!(context.is_button_pressed(MouseButton::Right));
    assert_eq!(context.position(), (2, 3));
    assert!(!context.is_dragging);
}

#[test]
fn drag_records_the_button_once() {
    let mut context = MouseContext::new();
    context.update(&event(MouseEventKind::Drag(MouseButton::Middle), 4, 4));
    context.update(&event(MouseEventKind::Drag(MouseButton::Middle), 5, 4));
    assert_eq!(context.pressed_buttons, vec![MouseButton::Middle]);
    assert!(context.is_dragging);
    assert_eq!(context.drag_start(), None);
}

#[test]
fn clear_releases_everything() {
    let mut context = MouseContext::new();
    context.update(&event(MouseEventKind::Down(MouseButton::Left), 1, 2));
    context.clear();
    assert!(context.pressed_buttons.is_empty());
    assert_eq!(context.drag_start(), None);
    assert_eq!(context.last_click, Some((1, 2)));
}

#[test]
fn double_click_needs_same_cell_and_left_button() {
    let mut context = MouseContext::new();
    context.update(&event(MouseEventKind::Down(MouseButton::Left), 10, 5));
    assert!(!context.check_double_click(&event(MouseEventKind::Down(MouseButton::Left), 11, 5)));
    assert!(!context.check_double_click(&event(MouseEventKind::Down(MouseButton::Right), 10, 5)));
    assert!(context.double_click_after(&event(MouseEventKind::Down(MouseButton::Left), 10, 5), 0));
    assert!(context.double_click_after(&event(MouseEventKind::Down(MouseButton::Left), 10, 5), 299));
    assert!(!context.double_click_after(&event(MouseEventKind::Down(MouseButton::Left), 10, 5), 300));
    assert!(!context.double_click_after(&event(MouseEventKind::Down(MouseButton::Left), 10, 5), 3000));
    assert!(!context.double_click_after(&event(MouseEventKind::Down(MouseButton::Left), 11, 5), 10));
    assert!(!MouseContext::new().check_double_click(&event(MouseEventKind::Down(MouseButton::Left), 0, 0)));
}

#[test]
fn chat_click_maps_rows_to_messages() {
    let handler = ChatMouseHandler::with_padding(2);
    assert_eq!(handler.click_padding(), 2);
    let area = (10, 20, 30, 8);
    assert_eq!(
        handler.handle_chat_mouse(&event(MouseEventKind::Down(MouseButton::Left), 12, 23), area, 50, 7, 5),
        ChatMouseAction::MessageClick(10)
    );
    assert_eq!(
        handler.handle_chat_mouse(&event(MouseEventKind::Down(MouseButton::Left), 12, 26), area, 50, 7, 5),
        ChatMouseAction::ChatClick(12, 26)
    );
    assert_eq!(
        handler.handle_chat_mouse(&event(MouseEventKind::Down(MouseButton::Right), 12, 21), area, 50, 7, 5),
        ChatMouseAction::ContextMenu(12, 21)
    );
    assert_eq!(
        handler.handle_chat_mouse(&event(MouseEventKind::ScrollDown, 39, 27), area, 50, 7, 5),
        ChatMouseAction::ScrollDown
    );
    assert_eq!(
        handler.handle_chat_mouse(&event(MouseEventKind::ScrollDown, 40, 27), area, 50, 7, 5),
        ChatMouseAction::NoAction
    );
    assert_eq!(
        handler.handle_chat_mouse(&event(MouseEventKind::Moved, 12, 21), area, 50, 7, 5),
        ChatMouseAction::NoAction
    );
}

#[test]
fn input_mouse_actions_carry_the_column_offset() {
    let handler = InputMouseHandler::new();
    let area = (4, 0, 10, 1);
    assert_eq!(
        handler.handle_input_mouse(&event(MouseEventKind::Drag(MouseButton::Left), 9, 0), area, 3),
        (InputMouseAction::DragCursor(5), Some(5))
    );
    assert_eq!(
        handler.handle_input_mouse(&event(MouseEventKind::Down(MouseButton::Right), 4, 7), area, 3),
        (InputMouseAction::ContextMenuAt(0), Some(0))
    );
    assert_eq!(
        handler.handle_input_mouse(&event(MouseEventKind::Down(MouseButton::Left), 14, 0), area, 3),
        (InputMouseAction::NoAction, None)
    );
    assert_eq!(
        handler.handle_input_mouse(&event(MouseEventKind::Up(MouseButton::Left), 5, 0), area, 3),
        (InputMouseAction::NoAction, None)
    );
}

#[test]
fn toolbar_reports_the_first_button_under_the_cell() {
    let mut toolbar = ToolbarMouseHandler::new();
    let mut send = ToolbarButton::new("send", "Send");
    send.set_area(0, 0, 6, 1);
    let mut stop = ToolbarButton::new("stop", "Stop");
    stop.set_area(4, 0, 6, 1);
    toolbar.add_button(ToolbarButton::new("hidden", "Hidden"));
    toolbar.add_button(send);
    toolbar.add_button(stop);
    assert_eq!(toolbar.buttons().len(), 3);
    assert_eq!(
        toolbar.handle_toolbar_mouse(&event(MouseEventKind::Down(MouseButton::Left), 5, 0)),
        ToolbarMouseAction::ButtonPress("send".to_string())
    );
    assert_eq!(
        toolbar.handle_toolbar_mouse(&event(MouseEventKind::Up(MouseButton::Left), 8, 0)),
        ToolbarMouseAction::ButtonRelease("stop".to_string())
    );
    assert_eq!(
        toolbar.handle_toolbar_mouse(&event(MouseEventKind::Down(MouseButton::Right), 5, 0)),
        ToolbarMouseAction::NoAction
    );
    assert_eq!(
        toolbar.handle_toolbar_mouse(&event(MouseEventKind::Down(MouseButton::Left), 5, 1)),
        ToolbarMouseAction::NoAction
    );
    toolbar.set_buttons(Vec::new());
    assert!(toolbar.buttons().is_empty());
}

#[test]
fn cloned_context_keeps_its_state() {
    let mut context = MouseContext::new();
    context.update(&event(MouseEventKind::Down(MouseButton::Right), 3, 4));
    context.update(&event(MouseEventKind::Drag(MouseButton::Left), 6, 7));
    let copy = context.clone();
    assert_eq!(copy.position(), (6, 7));
    assert_eq!(copy.pressed_buttons, vec![MouseButton::Right, MouseButton::Left]);
    assert!(copy.is_dragging);
    assert_eq!(copy.drag_start(), Some((3, 4)));
    assert_eq!(copy.last_click, Some((3, 4)));
    assert_eq!(copy.last_click_time, context.last_click_time);
}

#[test]
fn update_at_records_the_given_time() {
    let earlier = std::time::Instant::now();
    let later = earlier + std::time::Duration::from_millis(50);
    let mut context = MouseContext::new();
    context.update_at(&event(MouseEventKind::Down(MouseButton::Left), 1, 2), earlier);
    assert_eq!(context.last_click_time, Some(earlier));
    context.update_at(&event(MouseEventKind::Down(MouseButton::Left), 1, 2), later);
    assert_eq!(context.last_click_time, Some(later));
    context.update_at(&event(MouseEventKind::Up(MouseButton::Left), 1, 2), earlier);
    assert_eq!(context.last_click_time, Some(later));
}
