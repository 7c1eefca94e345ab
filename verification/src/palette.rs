//! The palette: the ordered list of selectable colors, each with a paint
//! counter, and the currently selected entry. The palette is drawn near
//! the bottom of the terminal as two rows of five swatches; clicking a
//! swatch selects its color.

use vstd::prelude::*;

use crate::board::BoardDataColor;
use crate::input::{rect_contains, Input, MouseButton, Rect};

verus! {

/// One color channel triple, as read from an image.
#[derive(Clone, Copy, Debug, PartialEq, Eq, Structural)]
pub struct RGB {
    pub r: u8,
    pub g: u8,
    pub b: u8,
}

impl RGB {
    pub fn new(r: u8, g: u8, b: u8) -> (c: Self)
        ensures
            c == (RGB { r, g, b }),
    {
        Self { r, g, b }
    }
}

/// One selectable color: its channels, how many cells carry it, and how
/// many of those have been painted.
#[derive(Clone, Copy, Debug)]
pub struct PaletteColor {
    pub r: u8,
    pub g: u8,
    pub b: u8,
    pub painted: u32,
    pub count: u32,
}

/// The selectable colors and the index of the selected one.
pub struct Palette {
    pub colors: Vec<PaletteColor>,

    pub selected_color: u8,
}

/// Width of one palette swatch, in terminal cells.
pub const PALETTE_CELL_WIDTH: u16 = 6;

/// Height of one palette swatch, in terminal cells.
pub const PALETTE_CELL_HEIGHT: u16 = 3;

pub const PALETTE_CELLS_PER_ROW: u16 = 5;

pub const PALETTE_CELLS_PER_COL: u16 = 2;

/// Width of the whole swatch grid.
pub const PALETTE_TOTAL_WIDTH: u16 = PALETTE_CELL_WIDTH * PALETTE_CELLS_PER_ROW;

/// The swatch grid's left edge for a terminal of width `term_w`.
pub open spec fn palette_origin_x(term_w: int) -> int {
    (term_w - PALETTE_TOTAL_WIDTH) / 2
}

/// The line above the swatch grid for a terminal of height `term_h`; the
/// swatches of grid row `r` start on line `palette_origin_y + 3 r + 1`.
pub open spec fn palette_origin_y(term_h: int) -> int {
    term_h - 2 * PALETTE_CELL_HEIGHT - 1
}

/// The swatch under the mouse while the left button is down, if any: the
/// index that a pass over the swatch grid selects.
pub open spec fn palette_hit(input: Input, term_w: u16, term_h: u16) -> Option<int> {
    let x = palette_origin_x(term_w as int);
    let y = palette_origin_y(term_h as int);
    let mx = input.mouse_x as int;
    let my = input.mouse_y as int;
    if input.mouse_buttons_pressed@.contains(MouseButton::Left) && x <= mx < x
        + PALETTE_TOTAL_WIDTH && y + 1 <= my < y + 1 + 2 * PALETTE_CELL_HEIGHT {
        Some((my - (y + 1)) / (PALETTE_CELL_HEIGHT as int) * (PALETTE_CELLS_PER_ROW as int) + (mx
            - x) / (PALETTE_CELL_WIDTH as int))
    } else {
        None
    }
}

/// What the selection is after the swatches with index below `k` have
/// been tested against a hit on swatch `hit`.
spec fn sel_after(sel0: u8, hit: Option<int>, k: int) -> u8 {
    match hit {
        Some(h) => if h < k {
            h as u8
        } else {
            sel0
        },
        None => sel0,
    }
}

impl Palette {
    /// A palette over the given colors, nothing painted, the first color
    /// selected.
    pub fn new(colors: Vec<BoardDataColor>) -> (p: Self)
        ensures
            p.selected_color == 0,
            p.colors@.len() == colors@.len(),
            forall|i: int|
                0 <= i < colors@.len() ==> #[trigger] p.colors@[i] == (PaletteColor {
                    r: colors@[i].rgb.r,
                    g: colors@[i].rgb.g,
                    b: colors@[i].rgb.b,
                    painted: 0u32,
                    count: colors@[i].count,
                }),
    {
        let mut out: Vec<PaletteColor> = Vec::new();
        let mut i: usize = 0;
        while i < colors.len()
            invariant
                0 <= i <= colors@.len(),
                out@.len() == i,
                forall|j: int|
                    0 <= j < i ==> #[trigger] out@[j] == (PaletteColor {
                        r: colors@[j].rgb.r,
                        g: colors@[j].rgb.g,
                        b: colors@[j].rgb.b,
                        painted: 0u32,
                        count: colors@[j].count,
                    }),
            decreases colors@.len() - i,
        {
            let c = &colors[i];
            out.push(
                PaletteColor {
                    r: c.rgb.r,
                    g: c.rgb.g,
                    b: c.rgb.b,
                    painted: 0,
                    count: c.count,
                },
            );
            i += 1;
        }
        Self { colors: out, selected_color: 0 }
    }

    /// The color triple of the palette entry at `index`.
    pub fn get_color(&self, index: u8) -> (c: RGB)
        requires
            (index as int) < self.colors@.len(),
        ensures
            c == (RGB {
                r: self.colors@[index as int].r,
                g: self.colors@[index as int].g,
                b: self.colors@[index as int].b,
            }),
    {
        let pc = &self.colors[index as usize];
        RGB { r: pc.r, g: pc.g, b: pc.b }
    }

    /// The top-left reference point of the palette's swatch grid on a
    /// terminal of `term_w` by `term_h` cells; the swatches of grid row
    /// `r` start one line below it, at `3 r` further down.
    pub fn origin(term_w: u16, term_h: u16) -> (o: (u16, u16))
        requires
            PALETTE_TOTAL_WIDTH <= term_w,
            2 * PALETTE_CELL_HEIGHT + 1 <= term_h,
        ensures
            o.0 as int == palette_origin_x(term_w as int),
            o.1 as int == palette_origin_y(term_h as int),
    {
        ((term_w - PALETTE_TOTAL_WIDTH) / 2, term_h - 2 * PALETTE_CELL_HEIGHT - 1)
    }

    /// Walk the swatch grid and select the swatch the mouse is pressing.
    /// At most one swatch contains the mouse, so the selection becomes
    /// that swatch's index, or stays what it was.
    pub fn update(&mut self, input: &Input, term_w: u16, term_h: u16)
        requires
            input.mouse_x <= 32767,
            input.mouse_y <= 32767,
            PALETTE_TOTAL_WIDTH <= term_w <= 65504,
            2 * PALETTE_CELL_HEIGHT + 1 <= term_h <= 32767,
        ensures
            final(self).colors == old(self).colors,
            match palette_hit(*input, term_w, term_h) {
                Some(h) => final(self).selected_color as int == h,
                None => final(self).selected_color == old(self).selected_color,
            },
    {
        let ghost sel0 = self.selected_color;
        let ghost hit = palette_hit(*input, term_w, term_h);
        let ghost mx = input.mouse_x as int;
        let ghost my = input.mouse_y as int;

        let x = (term_w - PALETTE_TOTAL_WIDTH) / 2;
        let y = term_h - 2 * PALETTE_CELL_HEIGHT - 1;
        proof {
            assert(x as int == palette_origin_x(term_w as int));
            assert(y as int == palette_origin_y(term_h as int));
        }

        let mut row: u16 = 0;
        while row < PALETTE_CELLS_PER_COL
            invariant
                0 <= row <= PALETTE_CELLS_PER_COL,
                input.mouse_x <= 32767,
                input.mouse_y <= 32767,
                mx == input.mouse_x as int,
                my == input.mouse_y as int,
                PALETTE_TOTAL_WIDTH <= term_w <= 65504,
                2 * PALETTE_CELL_HEIGHT + 1 <= term_h <= 32767,
                x as int == palette_origin_x(term_w as int),
                y as int == palette_origin_y(term_h as int),
                hit == palette_hit(*input, term_w, term_h),
                self.colors == old(self).colors,
                self.selected_color == sel_after(sel0, hit, row as int * 5),
            decreases PALETTE_CELLS_PER_COL - row,
        {
            let mut col: u16 = 0;
            while col < PALETTE_CELLS_PER_ROW
                invariant
                    0 <= row < PALETTE_CELLS_PER_COL,
                    0 <= col <= PALETTE_CELLS_PER_ROW,
                    input.mouse_x <= 32767,
                    input.mouse_y <= 32767,
                    mx == input.mouse_x as int,
                    my == input.mouse_y as int,
                    PALETTE_TOTAL_WIDTH <= term_w <= 65504,
                    2 * PALETTE_CELL_HEIGHT + 1 <= term_h <= 32767,
                    x as int == palette_origin_x(term_w as int),
                    y as int == palette_origin_y(term_h as int),
                    hit == palette_hit(*input, term_w, term_h),
                    self.colors == old(self).colors,
                    self.selected_color == sel_after(sel0, hit, row as int * 5 + col as int),
                decreases PALETTE_CELLS_PER_ROW - col,
            {
                let rect = Rect {
                    x: (x + col * PALETTE_CELL_WIDTH) as i16,
                    y: (y + row * PALETTE_CELL_HEIGHT + 1) as i16,
                    width: PALETTE_CELL_WIDTH,
                    height: PALETTE_CELL_HEIGHT,
                };
                let pressed = input.is_mouse_button_down_in(MouseButton::Left, rect);
                proof {
                    let k = row as int * 5 + col as int;
                    let xi = x as int;
                    let yi = y as int;
                    let rx = xi + col as int * 6;
                    let ry = yi + row as int * 3 + 1;
                    assert(rect.x as int == rx);
                    assert(rect.y as int == ry);
                    if pressed {
                        assert(rect_contains(rect, mx, my));
                        vstd::arithmetic::div_mod::lemma_fundamental_div_mod_converse_div(
                            mx - xi,
                            6,
                            col as int,
                            mx - xi - 6 * (col as int),
                        );
                        vstd::arithmetic::div_mod::lemma_fundamental_div_mod_converse_div(
                            my - (yi + 1),
                            3,
                            row as int,
                            my - (yi + 1) - 3 * (row as int),
                        );
                        assert((mx - xi) / 6 == col as int);
                        assert((my - (yi + 1)) / 3 == row as int);
                        assert(hit == Some(k));
                    } else {
                        if hit is Some {
                            let h = hit->0;
                            let qc = (mx - xi) / 6;
                            let qr = (my - (yi + 1)) / 3;
                            vstd::arithmetic::div_mod::lemma_fundamental_div_mod(mx - xi, 6);
                            vstd::arithmetic::div_mod::lemma_mod_bound(mx - xi, 6);
                            vstd::arithmetic::div_mod::lemma_fundamental_div_mod(my - (yi + 1), 3);
                            vstd::arithmetic::div_mod::lemma_mod_bound(my - (yi + 1), 3);
                            assert(0 <= qc < 5);
                            assert(0 <= qr < 2);
                            assert(h == qr * 5 + qc);
                            if h == k {
                                assert(qr == row as int && qc == col as int);
                                assert(rx <= mx < rx + 6);
                                assert(ry <= my < ry + 3);
                                assert(rect_contains(rect, mx, my));
                                assert(false);
                            }
                        }
                    }
                }
                if pressed {
                    self.selected_color = (row * PALETTE_CELLS_PER_ROW + col) as u8;
                }
                col += 1;
            }
            row += 1;
        }
    }
}

} // verus!
