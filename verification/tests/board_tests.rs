use paint_by_number::board::{Board, BoardData};
use paint_by_number::input::{FrameMouse, Input, MouseButton, MouseDrag};
use paint_by_number::palette::RGB;

fn red() -> RGB {
    RGB::new(255, 0, 0)
}

fn blue() -> RGB {
    RGB::new(0, 0, 255)
}

#[test]
fn from_pixels_assigns_same_index_to_equal_colors() {
    let data = BoardData::from_pixels(2, 2, vec![red(), blue(), red(), blue()]);
    assert_eq!(data.width, 2);
    assert_eq!(data.height, 2);
    assert_eq!(data.pixels[0][0], data.pixels[1][0]);
    assert_eq!(data.pixels[0][1], data.pixels[1][1]);
    assert_ne!(data.pixels[0][0], data.pixels[0][1]);
}

#[test]
fn from_pixels_orders_colors_by_first_appearance_and_counts_them() {
    let data = BoardData::from_pixels(3, 1, vec![red(), red(), blue()]);
    assert_eq!(data.colors.len(), 2);
    assert_eq!(data.colors[0].rgb, red());
    assert_eq!(data.colors[0].count, 2);
    assert_eq!(data.colors[1].rgb, blue());
    assert_eq!(data.colors[1].count, 1);
    assert_eq!(data.pixels[0], vec![0, 0, 1]);
}

#[test]
fn from_pixels_checked_accepts_up_to_256_colors() {
    let mut pixels = Vec::new();
    for i in 0..256u32 {
        pixels.push(RGB::new((i % 256) as u8, (i / 256) as u8, 0));
    }
    let data = BoardData::from_pixels_checked(256, 1, pixels);
    assert!(data.is_some());
    assert_eq!(data.unwrap().colors.len(), 256);
}

#[test]
fn from_pixels_checked_rejects_a_257th_color() {
    let mut pixels = Vec::new();
    for i in 0..257u32 {
        pixels.push(RGB::new((i % 256) as u8, (i / 256) as u8, 0));
    }
    assert!(BoardData::from_pixels_checked(257, 1, pixels).is_none());
}

#[test]
fn new_board_is_unfilled_and_mirrors_the_image() {
    let data = BoardData::from_pixels(2, 1, vec![red(), blue()]);
    let board = Board::new(data);
    assert_eq!(board.x, 0);
    assert_eq!(board.y, 0);
    assert_eq!(board.width(), 2);
    assert_eq!(board.height(), 1);
    assert_eq!(board.get(0, 0).color, 0);
    assert_eq!(board.get(1, 0).color, 1);
    assert!(!board.get(0, 0).filled);
    assert!(!board.get(1, 0).filled);
    assert_eq!(board.palette.colors.len(), 2);
    assert_eq!(board.palette.colors[0].count, 1);
    assert_eq!(board.palette.colors[0].painted, 0);
    assert_eq!(board.palette.selected_color, 0);
}

#[test]
fn contains_checks_all_four_edges() {
    let data = BoardData::from_pixels(2, 3, vec![red(); 6]);
    let board = Board::new(data);
    assert!(board.contains(0, 0));
    assert!(board.contains(1, 2));
    assert!(!board.contains(-1, 0));
    assert!(!board.contains(0, -1));
    assert!(!board.contains(2, 0));
    assert!(!board.contains(0, 3));
}

fn left_click_at(x: u16, y: u16) -> Input {
    let mut input = Input::new();
    input.frame_mouses = vec![FrameMouse { x, y, active_button: Some(MouseButton::Left) }];
    input
}

#[test]
fn update_fills_a_cell_of_the_selected_color() {
    let data = BoardData::from_pixels(2, 1, vec![red(), blue()]);
    let mut board = Board::new(data);
    // the selection starts at color 0, the red cell is cell (0, 0)
    board.update(&left_click_at(0, 0), 80, 24);
    assert!(board.get(0, 0).filled);
    assert_eq!(board.palette.colors[0].painted, 1);
    assert_eq!(board.palette.colors[1].painted, 0);
}

#[test]
fn update_leaves_a_cell_of_another_color_alone() {
    let data = BoardData::from_pixels(2, 1, vec![red(), blue()]);
    let mut board = Board::new(data);
    // cell (1, 0) is blue, index 1, while color 0 is selected
    board.update(&left_click_at(2, 0), 80, 24);
    assert!(!board.get(1, 0).filled);
    assert_eq!(board.palette.colors[0].painted, 0);
    assert_eq!(board.palette.colors[1].painted, 0);
}

#[test]
fn update_fills_a_cell_only_once() {
    let data = BoardData::from_pixels(1, 1, vec![red()]);
    let mut board = Board::new(data);
    board.update(&left_click_at(0, 0), 80, 24);
    board.update(&left_click_at(1, 0), 80, 24);
    assert!(board.get(0, 0).filled);
    assert_eq!(board.palette.colors[0].painted, 1);
}

#[test]
fn update_pans_with_the_middle_button() {
    let data = BoardData::from_pixels(1, 1, vec![red()]);
    let mut board = Board::new(data);
    let mut input = Input::new();
    input.mouse_drag = Some(MouseDrag { offset_x: 3, offset_y: -2, button: MouseButton::Middle });
    board.update(&input, 80, 24);
    assert_eq!(board.x, 3);
    assert_eq!(board.y, -2);
}

#[test]
fn update_does_not_pan_with_the_left_button() {
    let data = BoardData::from_pixels(1, 1, vec![red()]);
    let mut board = Board::new(data);
    let mut input = Input::new();
    input.mouse_drag = Some(MouseDrag { offset_x: 3, offset_y: -2, button: MouseButton::Left });
    board.update(&input, 80, 24);
    assert_eq!(board.x, 0);
    assert_eq!(board.y, 0);
}

#[test]
fn update_honors_the_pan_before_filling() {
    let data = BoardData::from_pixels(2, 1, vec![red(), blue()]);
    let mut board = Board::new(data);
    let mut input = Input::new();
    input.mouse_drag = Some(MouseDrag { offset_x: 2, offset_y: 0, button: MouseButton::Middle });
    // after panning right by two columns, screen column 2 is cell (0, 0)
    input.frame_mouses = vec![FrameMouse { x: 2, y: 0, active_button: Some(MouseButton::Left) }];
    board.update(&input, 80, 24);
    assert!(board.get(0, 0).filled);
}

#[test]
fn update_selects_a_palette_swatch_under_a_pressed_left_button() {
    let data = BoardData::from_pixels(2, 1, vec![red(), blue()]);
    let mut board = Board::new(data);
    let mut input = Input::new();
    // on an 80 by 24 terminal the swatch grid starts at column 25, row 18
    input.mouse_x = 32;
    input.mouse_y = 19;
    input.mouse_buttons_pressed = vec![MouseButton::Left];
    board.update(&input, 80, 24);
    assert_eq!(board.palette.selected_color, 1);
}

#[test]
fn cell_screen_position_places_and_clips_cells() {
    let data = BoardData::from_pixels(40, 1, vec![red(); 40]);
    let mut board = Board::new(data);
    assert_eq!(board.cell_screen_position(1, 0, 80, 24), Some((2, 0)));
    // cell 39 would end at the terminal's right edge
    assert_eq!(board.cell_screen_position(39, 0, 80, 24), None);
    board.x = -1;
    assert_eq!(board.cell_screen_position(1, 0, 80, 24), Some((1, 0)));
    // cell 0 now starts left of the screen
    assert_eq!(board.cell_screen_position(0, 0, 80, 24), None);
}

#[test]
fn a_click_one_column_left_of_the_board_lands_on_column_zero() {
    // truncating division sends screen columns -1 and 0 both to cell 0
    let data = BoardData::from_pixels(2, 1, vec![red(), blue()]);
    let mut board = Board::new(data);
    board.x = 1;
    board.update(&left_click_at(0, 0), 80, 24);
    assert!(board.get(0, 0).filled);
}

#[test]
fn a_click_above_the_board_fills_nothing() {
    let data = BoardData::from_pixels(2, 1, vec![red(), blue()]);
    let mut board = Board::new(data);
    board.y = 5;
    board.update(&left_click_at(0, 0), 80, 24);
    assert!(!board.get(0, 0).filled);
    assert!(!board.get(1, 0).filled);
}
