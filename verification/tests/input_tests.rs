use paint_by_number::input::{
    Input, InputEvent, KeyCode, KeyEventKind, MouseButton, MouseEventKind, Rect,
};

#[test]
fn a_pressed_key_is_down_until_released() {
    let mut input = Input::new();
    let q = KeyCode::Char('q');
    input.process_frame_events(&vec![InputEvent::Key(q, KeyEventKind::Press)]);
    assert!(input.is_key_down(q));
    assert!(!input.is_key_down(KeyCode::Esc));
    input.process_frame_events(&vec![InputEvent::Key(q, KeyEventKind::Release)]);
    assert!(!input.is_key_down(q));
}

#[test]
fn pressing_a_key_twice_keeps_one_entry() {
    let mut input = Input::new();
    let q = KeyCode::Char('q');
    input.process_frame_events(&vec![
        InputEvent::Key(q, KeyEventKind::Press),
        InputEvent::Key(q, KeyEventKind::Press),
    ]);
    assert_eq!(input.keys_pressed.len(), 1);
    input.process_frame_events(&vec![InputEvent::Key(q, KeyEventKind::Release)]);
    assert!(!input.is_key_down(q));
}

#[test]
fn a_repeat_changes_nothing() {
    let mut input = Input::new();
    let q = KeyCode::Char('q');
    input.process_frame_events(&vec![InputEvent::Key(q, KeyEventKind::Repeat)]);
    assert!(!input.is_key_down(q));
}

#[test]
fn mouse_down_tracks_button_position_and_frame_trail() {
    let mut input = Input::new();
    input.process_frame_events(&vec![InputEvent::Mouse(
        7,
        5,
        MouseEventKind::Down(MouseButton::Left),
    )]);
    assert_eq!(input.mouse_x, 7);
    assert_eq!(input.mouse_y, 5);
    assert_eq!(input.mouse_buttons_pressed, vec![MouseButton::Left]);
    assert_eq!(input.frame_mouses.len(), 1);
    assert_eq!(input.frame_mouses[0].x, 7);
    assert_eq!(input.frame_mouses[0].y, 5);
    assert_eq!(input.frame_mouses[0].active_button, Some(MouseButton::Left));
}

#[test]
fn mouse_up_releases_the_button_and_ends_the_drag() {
    let mut input = Input::new();
    input.process_frame_events(&vec![
        InputEvent::Mouse(7, 5, MouseEventKind::Down(MouseButton::Left)),
        InputEvent::Mouse(8, 5, MouseEventKind::Drag(MouseButton::Left)),
        InputEvent::Mouse(8, 5, MouseEventKind::Up(MouseButton::Left)),
    ]);
    assert!(input.mouse_buttons_pressed.is_empty());
    assert!(input.mouse_drag.is_none());
    assert_eq!(input.frame_mouses.len(), 3);
    assert_eq!(input.frame_mouses[2].active_button, None);
}

#[test]
fn a_drag_reports_its_offset_from_the_press() {
    let mut input = Input::new();
    input.process_frame_events(&vec![
        InputEvent::Mouse(10, 10, MouseEventKind::Down(MouseButton::Middle)),
        InputEvent::Mouse(15, 12, MouseEventKind::Drag(MouseButton::Middle)),
    ]);
    let drag = input.mouse_drag.unwrap();
    assert_eq!(drag.offset_x, 5);
    assert_eq!(drag.offset_y, 2);
    assert_eq!(drag.button, MouseButton::Middle);
}

#[test]
fn a_drag_continued_in_the_next_frame_measures_from_the_last_step() {
    let mut input = Input::new();
    input.process_frame_events(&vec![
        InputEvent::Mouse(10, 10, MouseEventKind::Down(MouseButton::Middle)),
        InputEvent::Mouse(15, 12, MouseEventKind::Drag(MouseButton::Middle)),
    ]);
    input.process_frame_events(&vec![InputEvent::Mouse(
        18,
        13,
        MouseEventKind::Drag(MouseButton::Middle),
    )]);
    let drag = input.mouse_drag.unwrap();
    assert_eq!(drag.offset_x, 3);
    assert_eq!(drag.offset_y, 1);
}

#[test]
fn a_new_frame_clears_the_drag_and_the_mouse_trail() {
    let mut input = Input::new();
    input.process_frame_events(&vec![
        InputEvent::Mouse(10, 10, MouseEventKind::Down(MouseButton::Middle)),
        InputEvent::Mouse(15, 12, MouseEventKind::Drag(MouseButton::Middle)),
    ]);
    input.process_frame_events(&vec![]);
    assert!(input.mouse_drag.is_none());
    assert!(input.frame_mouses.is_empty());
    // held buttons survive the frame boundary
    assert_eq!(input.mouse_buttons_pressed, vec![MouseButton::Middle]);
}

#[test]
fn a_mouse_move_updates_the_position_without_a_button() {
    let mut input = Input::new();
    input.process_frame_events(&vec![InputEvent::Mouse(3, 4, MouseEventKind::Other)]);
    assert_eq!(input.mouse_x, 3);
    assert_eq!(input.mouse_y, 4);
    assert_eq!(input.frame_mouses.len(), 1);
    assert_eq!(input.frame_mouses[0].active_button, None);
}

#[test]
fn rect_contains_is_half_open() {
    let rect = Rect { x: 2, y: 3, width: 4, height: 2 };
    assert!(rect.contains(2, 3));
    assert!(rect.contains(5, 4));
    assert!(!rect.contains(6, 3));
    assert!(!rect.contains(2, 5));
    assert!(!rect.contains(1, 3));
}

#[test]
fn is_mouse_button_down_in_needs_both_button_and_position() {
    let mut input = Input::new();
    let rect = Rect { x: 0, y: 0, width: 10, height: 10 };
    input.mouse_x = 5;
    input.mouse_y = 5;
    assert!(!input.is_mouse_button_down_in(MouseButton::Left, rect));
    input.mouse_buttons_pressed = vec![MouseButton::Left];
    let rect = Rect { x: 0, y: 0, width: 10, height: 10 };
    assert!(input.is_mouse_button_down_in(MouseButton::Left, rect));
    let far = Rect { x: 20, y: 20, width: 2, height: 2 };
    assert!(!input.is_mouse_button_down_in(MouseButton::Left, far));
}
