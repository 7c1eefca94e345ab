use paint_by_number::board::BoardDataColor;
use paint_by_number::input::{Input, MouseButton};
use paint_by_number::palette::{Palette, RGB};

fn two_colors() -> Vec<BoardDataColor> {
    vec![
        BoardDataColor { rgb: RGB::new(10, 20, 30), count: 4 },
        BoardDataColor { rgb: RGB::new(40, 50, 60), count: 2 },
    ]
}

#[test]
fn a_new_palette_starts_unpainted_with_the_first_color_selected() {
    let palette = Palette::new(two_colors());
    assert_eq!(palette.selected_color, 0);
    assert_eq!(palette.colors.len(), 2);
    assert_eq!(palette.colors[0].painted, 0);
    assert_eq!(palette.colors[0].count, 4);
    assert_eq!(palette.colors[1].count, 2);
}

#[test]
fn get_color_returns_the_channel_triple() {
    let palette = Palette::new(two_colors());
    assert_eq!(palette.get_color(0), RGB::new(10, 20, 30));
    assert_eq!(palette.get_color(1), RGB::new(40, 50, 60));
}

#[test]
fn the_swatch_grid_sits_centered_above_the_bottom_edge() {
    assert_eq!(Palette::origin(80, 24), (25, 17));
    assert_eq!(Palette::origin(30, 7), (0, 0));
}

fn pressing_at(x: u16, y: u16) -> Input {
    let mut input = Input::new();
    input.mouse_x = x;
    input.mouse_y = y;
    input.mouse_buttons_pressed = vec![MouseButton::Left];
    input
}

#[test]
fn clicking_a_swatch_selects_its_color() {
    // on an 80 by 24 terminal the swatches span columns 25..55, rows 18..24
    let mut palette = Palette::new(two_colors());
    palette.update(&pressing_at(25, 18), 80, 24);
    assert_eq!(palette.selected_color, 0);
    palette.update(&pressing_at(32, 19), 80, 24);
    assert_eq!(palette.selected_color, 1);
    palette.update(&pressing_at(54, 20), 80, 24);
    assert_eq!(palette.selected_color, 4);
    palette.update(&pressing_at(25, 21), 80, 24);
    assert_eq!(palette.selected_color, 5);
    palette.update(&pressing_at(54, 23), 80, 24);
    assert_eq!(palette.selected_color, 9);
}

#[test]
fn a_click_outside_the_swatches_changes_nothing() {
    let mut palette = Palette::new(two_colors());
    palette.update(&pressing_at(24, 18), 80, 24);
    assert_eq!(palette.selected_color, 0);
    palette.update(&pressing_at(25, 17), 80, 24);
    assert_eq!(palette.selected_color, 0);
    palette.update(&pressing_at(55, 20), 80, 24);
    assert_eq!(palette.selected_color, 0);
}

#[test]
fn a_hovering_mouse_without_a_button_changes_nothing() {
    let mut palette = Palette::new(two_colors());
    let mut input = Input::new();
    input.mouse_x = 32;
    input.mouse_y = 19;
    palette.update(&input, 80, 24);
    assert_eq!(palette.selected_color, 0);
}
