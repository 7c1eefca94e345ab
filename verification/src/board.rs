//! The board: an image deduplicated into a palette and a grid of color
//! indices, and the grid of fillable cells the game plays on.

use vstd::prelude::*;

use crate::counting::{
    count_matching, count_matching_grid, first_occurrence, lemma_count_grid_le,
    lemma_count_grid_lt, lemma_count_grid_pointwise, lemma_count_grid_push,
    lemma_count_grid_update, lemma_count_grid_zero, lemma_count_matching_at,
    lemma_count_matching_bounds, lemma_count_matching_pos, lemma_count_matching_push,
    lemma_count_matching_update, lemma_count_matching_zero, lemma_first_occurrence,
};
use crate::input::{FrameMouse, Input, MouseButton};
use crate::palette::{
    palette_hit, Palette, PaletteColor, RGB, PALETTE_CELL_HEIGHT, PALETTE_TOTAL_WIDTH,
};

verus! {

/// One palette entry of a deduplicated image: a color and how many pixels
/// carry it.
#[derive(Clone, Copy, Debug)]
pub struct BoardDataColor {
    pub rgb: RGB,
    pub count: u32,
}

/// A deduplicated image: a grid of indices into `colors`.
#[derive(Debug)]
pub struct BoardData {
    pub width: usize,
    pub height: usize,

    pub pixels: Vec<Vec<u8>>,
    pub colors: Vec<BoardDataColor>,
}

/// The predicate "this pixel has color `c`".
pub open spec fn rgb_is(c: RGB) -> spec_fn(RGB) -> bool {
    |q: RGB| q == c
}

/// The predicate "this grid entry is the index `v`".
pub open spec fn idx_is(v: u8) -> spec_fn(u8) -> bool {
    |b: u8| b == v
}

/// What `BoardData::from_pixels` promises of its result `d` for an image
/// of `width` by `height` pixels: a well-formed deduplication whose grid
/// points every pixel at its own color, whose counts count the image's
/// pixels by color, which lists every color of the image, and which gives
/// pixels of equal color equal indices.
pub open spec fn deduped_from(d: BoardData, width: int, height: int, image: Seq<RGB>) -> bool {
    &&& d.width == width
    &&& d.height == height
    &&& d.wf()
    &&& forall|y: int, x: int|
        0 <= y < height && 0 <= x < width ==> d.colors@[(#[trigger] d.pixels@[y]@[x]) as int].rgb
            == image[y * width + x]
    &&& forall|i: int|
        0 <= i < d.colors@.len() ==> (#[trigger] d.colors@[i]).count as int == count_matching(
            image,
            rgb_is(d.colors@[i].rgb),
        )
    &&& forall|q: RGB|
        #[trigger] count_matching(image, rgb_is(q)) > 0 ==> exists|i: int|
            0 <= i < d.colors@.len() && (#[trigger] d.colors@[i]).rgb == q
    &&& forall|i: int, j: int|
        0 <= i < j < d.colors@.len() ==> first_occurrence(image, (#[trigger] d.colors@[i]).rgb)
            < first_occurrence(image, (#[trigger] d.colors@[j]).rgb)
    &&& forall|y1: int, x1: int, y2: int, x2: int|
        0 <= y1 < height && 0 <= x1 < width && 0 <= y2 < height && 0 <= x2 < width && image[y1
            * width + x1] == image[y2 * width + x2] ==> #[trigger] d.pixels@[y1]@[x1]
            == #[trigger] d.pixels@[y2]@[x2]
}

impl BoardData {
    /// Colors are listed once each, every grid entry points at one, and
    /// each entry's count is the number of grid cells carrying it.
    pub open spec fn wf(self) -> bool {
        &&& self.pixels@.len() == self.height
        &&& forall|r: int|
            0 <= r < self.height ==> (#[trigger] self.pixels@[r])@.len() == self.width
        &&& self.colors@.len() <= 256
        &&& forall|r: int, c: int|
            0 <= r < self.height && 0 <= c < self.width ==> (#[trigger] self.pixels@[r]@[c])
                < self.colors@.len()
        &&& forall|i: int, j: int|
            0 <= i < j < self.colors@.len() ==> (#[trigger] self.colors@[i]).rgb != (
            #[trigger] self.colors@[j]).rgb
        &&& forall|i: int|
            0 <= i < self.colors@.len() ==> (#[trigger] self.colors@[i]).count as int
                == count_matching_grid(self.pixels@, idx_is(i as u8))
    }

    /// Deduplicate an image, row-major: a pixel whose color was seen before
    /// gets that color's index, a new color is appended. Counts say how many
    /// pixels carry each color, and pixels of equal color get equal indices.
    /// The grid stores indices as bytes, so the image may hold at most 256
    /// distinct colors.
    pub fn from_pixels(width: usize, height: usize, image_pixels: Vec<RGB>) -> (r: Self)
        requires
            image_pixels@.len() == width * height,
            width * height <= u32::MAX,
            image_pixels@.to_set().len() <= 256,
        ensures
            deduped_from(r, width as int, height as int, image_pixels@),
    {
        match Self::from_pixels_checked(width, height, image_pixels) {
            Some(data) => data,
            None => {
                proof {
                    assert(false);
                }
                vstd::pervasive::unreached()
            },
        }
    }

    /// As [`Self::from_pixels`], but detecting at run time whether the
    /// image fits the palette: an image of more than 256 distinct colors
    /// comes back as `None`.
    pub fn from_pixels_checked(width: usize, height: usize, image_pixels: Vec<RGB>) -> (r: Option<
        Self,
    >)
        requires
            image_pixels@.len() == width * height,
            width * height <= u32::MAX,
        ensures
            match r {
                Some(d) => deduped_from(d, width as int, height as int, image_pixels@)
                    && image_pixels@.to_set().len() <= 256,
                None => image_pixels@.to_set().len() > 256,
            },
    {
        let ghost img = image_pixels@;
        let mut colors: Vec<BoardDataColor> = Vec::new();
        let mut pixels: Vec<Vec<u8>> = Vec::new();
        let ghost mut n: int = 0;

        let mut y: usize = 0;
        while y < height
            invariant
                0 <= y <= height,
                n == y * width,
                img == image_pixels@,
                img.len() == width * height,
                width * height <= u32::MAX,
                pixels@.len() == y,
                forall|r: int| 0 <= r < y ==> (#[trigger] pixels@[r])@.len() == width,
                colors@.len() <= 256,
                forall|i: int, j: int|
                    0 <= i < j < colors@.len() ==> (#[trigger] colors@[i]).rgb != (
                    #[trigger] colors@[j]).rgb,
                forall|i: int| 0 <= i < colors@.len() ==> (#[trigger] colors@[i]).count >= 1,
                forall|i: int|
                    0 <= i < colors@.len() ==> first_occurrence(img, (#[trigger] colors@[i]).rgb)
                        < n,
                forall|i: int, j: int|
                    0 <= i < j < colors@.len() ==> first_occurrence(
                        img,
                        (#[trigger] colors@[i]).rgb,
                    ) < first_occurrence(img, (#[trigger] colors@[j]).rgb),
                forall|i: int|
                    0 <= i < colors@.len() ==> (#[trigger] colors@[i]).count as int
                        == count_matching(img.take(n), rgb_is(colors@[i].rgb)),
                forall|i: int|
                    0 <= i < colors@.len() ==> (#[trigger] colors@[i]).count as int
                        == count_matching_grid(pixels@, idx_is(i as u8)),
                forall|q: RGB|
                    #[trigger] count_matching(img.take(n), rgb_is(q)) > 0 ==> exists|i: int|
                        0 <= i < colors@.len() && (#[trigger] colors@[i]).rgb == q,
                forall|r: int, c: int|
                    0 <= r < y && 0 <= c < width ==> (#[trigger] pixels@[r]@[c])
                        < colors@.len() && colors@[pixels@[r]@[c] as int].rgb == img[r * width
                        + c],
            decreases height - y,
        {
            let mut row: Vec<u8> = Vec::new();
            let mut x: usize = 0;
            while x < width
                invariant
                    0 <= y < height,
                    0 <= x <= width,
                    n == y * width + x,
                    img == image_pixels@,
                    img.len() == width * height,
                    width * height <= u32::MAX,
                    pixels@.len() == y,
                    forall|r: int| 0 <= r < y ==> (#[trigger] pixels@[r])@.len() == width,
                    row@.len() == x,
                    colors@.len() <= 256,
                    forall|i: int, j: int|
                        0 <= i < j < colors@.len() ==> (#[trigger] colors@[i]).rgb != (
                        #[trigger] colors@[j]).rgb,
                    forall|i: int| 0 <= i < colors@.len() ==> (#[trigger] colors@[i]).count >= 1,
                    forall|i: int|
                        0 <= i < colors@.len() ==> first_occurrence(
                            img,
                            (#[trigger] colors@[i]).rgb,
                        ) < n,
                    forall|i: int, j: int|
                        0 <= i < j < colors@.len() ==> first_occurrence(
                            img,
                            (#[trigger] colors@[i]).rgb,
                        ) < first_occurrence(img, (#[trigger] colors@[j]).rgb),
                    forall|i: int|
                        0 <= i < colors@.len() ==> (#[trigger] colors@[i]).count as int
                            == count_matching(img.take(n), rgb_is(colors@[i].rgb)),
                    forall|i: int|
                        0 <= i < colors@.len() ==> (#[trigger] colors@[i]).count as int
                            == count_matching_grid(pixels@, idx_is(i as u8)) + count_matching(
                            row@,
                            idx_is(i as u8),
                        ),
                    forall|q: RGB|
                        #[trigger] count_matching(img.take(n), rgb_is(q)) > 0 ==> exists|i: int|
                            0 <= i < colors@.len() && (#[trigger] colors@[i]).rgb == q,
                    forall|r: int, c: int|
                        0 <= r < y && 0 <= c < width ==> (#[trigger] pixels@[r]@[c])
                            < colors@.len() && colors@[pixels@[r]@[c] as int].rgb == img[r
                            * width + c],
                    forall|c: int|
                        0 <= c < x ==> (#[trigger] row@[c]) < colors@.len() && colors@[row@[c]
                            as int].rgb == img[y * width + c],
                decreases width - x,
            {
                proof {
                    assert(y * width + x < width * height) by (nonlinear_arith)
                        requires
                            0 <= x < width,
                            0 <= y < height,
                    ;
                    assert(n < img.len());
                    assert(img.take(n + 1) =~= img.take(n).push(img[n]));
                }
                let pixel = image_pixels[y * width + x];
                proof {
                    assert(img[n] == pixel);
                }

                match find_color(&colors, pixel) {
                    Some(color_index) => {
                        let ghost old_colors = colors@;
                        let ghost old_row = row@;
                        let c = colors[color_index];
                        proof {
                            lemma_count_matching_bounds(img.take(n), rgb_is(c.rgb));
                            assert(c.count as int <= n);
                            assert(n < width * height <= u32::MAX);
                        }
                        colors.set(
                            color_index,
                            BoardDataColor { rgb: c.rgb, count: c.count + 1 },
                        );
                        row.push(color_index as u8);
                        proof {
                            let ci = color_index as int;
                            let civ = color_index as u8;
                            assert forall|i: int| 0 <= i < colors@.len() implies (
                            #[trigger] colors@[i]).count as int == count_matching(
                                img.take(n + 1),
                                rgb_is(colors@[i].rgb),
                            ) by {
                                lemma_count_matching_push(
                                    img.take(n),
                                    rgb_is(colors@[i].rgb),
                                    img[n],
                                );
                                if i != ci {
                                    assert(old_colors[i].rgb != old_colors[ci].rgb);
                                    assert(!rgb_is(colors@[i].rgb)(img[n]));
                                }
                            }
                            assert forall|i: int| 0 <= i < colors@.len() implies (
                            #[trigger] colors@[i]).count as int == count_matching_grid(
                                pixels@,
                                idx_is(i as u8),
                            ) + count_matching(row@, idx_is(i as u8)) by {
                                lemma_count_matching_push(old_row, idx_is(i as u8), civ);
                                if i != ci {
                                    assert(i as u8 != civ);
                                    assert(!idx_is(i as u8)(civ));
                                } else {
                                    assert(idx_is(i as u8)(civ));
                                }
                            }
                            assert forall|q: RGB|
                                #[trigger] count_matching(img.take(n + 1), rgb_is(q)) > 0
                                     implies exists|i: int|
                                0 <= i < colors@.len() && (#[trigger] colors@[i]).rgb == q by {
                                lemma_count_matching_push(img.take(n), rgb_is(q), img[n]);
                                if count_matching(img.take(n), rgb_is(q)) > 0 {
                                    let i = choose|i: int|
                                        0 <= i < old_colors.len() && (#[trigger] old_colors[i]).rgb
                                            == q;
                                    assert(colors@[i].rgb == q);
                                } else {
                                    assert(rgb_is(q)(img[n]));
                                    assert(colors@[ci].rgb == q);
                                }
                            }
                            n = n + 1;
                        }
                    },
                    None => {
                        let ghost old_colors = colors@;
                        let ghost old_row = row@;
                        proof {
                            // the color is new: no earlier pixel carries it,
                            // or some entry already would
                            assert(count_matching(img.take(n), rgb_is(pixel)) == 0) by {
                                lemma_count_matching_bounds(img.take(n), rgb_is(pixel));
                                if count_matching(img.take(n), rgb_is(pixel)) > 0 {
                                    let i = choose|i: int|
                                        0 <= i < colors@.len() && (#[trigger] colors@[i]).rgb
                                            == pixel;
                                    assert(colors@[i].rgb != pixel);
                                }
                            }
                        }
                        if colors.len() == 256 {
                            proof {
                                // a 257th color: the 256 collected ones and
                                // this pixel are distinct and all in the image
                                let rgbs = colors@.map_values(
                                    |cc: BoardDataColor| cc.rgb,
                                ).push(pixel);
                                assert(rgbs.no_duplicates()) by {
                                    assert forall|i: int, j: int|
                                        0 <= i < rgbs.len() && 0 <= j < rgbs.len() && i
                                            != j implies rgbs[i] != rgbs[j] by {
                                        if i < 256 {
                                            assert(rgbs[i] == colors@[i].rgb);
                                        }
                                        if j < 256 {
                                            assert(rgbs[j] == colors@[j].rgb);
                                        }
                                    }
                                }
                                assert forall|k: int| 0 <= k < rgbs.len() implies img.contains(
                                    #[trigger] rgbs[k],
                                ) by {
                                    if k < 256 {
                                        assert(rgbs[k] == colors@[k].rgb);
                                        assert(colors@[k].count as int == count_matching(
                                            img.take(n),
                                            rgb_is(colors@[k].rgb),
                                        ));
                                        assert(colors@[k].count >= 1);
                                        lemma_count_matching_pos(
                                            img.take(n),
                                            rgb_is(colors@[k].rgb),
                                        );
                                        let w = choose|w: int|
                                            0 <= w < img.take(n).len() && rgb_is(colors@[k].rgb)(
                                                #[trigger] img.take(n)[w],
                                            );
                                        assert(img.take(n)[w] == img[w]);
                                        assert(img[w] == colors@[k].rgb);
                                    } else {
                                        assert(rgbs[k] == pixel);
                                        assert(img[n] == pixel);
                                    }
                                }
                                assert(rgbs.to_set().subset_of(img.to_set())) by {
                                    assert forall|q: RGB| rgbs.to_set().contains(q) implies
                                        img.to_set().contains(q) by {
                                        assert(rgbs.contains(q));
                                        assert(img.contains(q));
                                    }
                                }
                                rgbs.unique_seq_to_set();
                                broadcast use vstd::seq_lib::seq_to_set_is_finite;
                                vstd::set_lib::lemma_len_subset(rgbs.to_set(), img.to_set());
                                assert(rgbs.len() == 257);
                                assert(img.to_set().len() > 256);
                            }
                            return None;
                        }
                        colors.push(BoardDataColor { rgb: pixel, count: 1 });
                        proof {
                            // the fresh color first appears exactly here
                            lemma_first_occurrence(img, pixel);
                            let f = first_occurrence(img, pixel);
                            if f > n {
                                assert(img[n] != pixel);
                                assert(false);
                            }
                            if f < n {
                                assert(img.take(n)[f] == pixel);
                                assert(rgb_is(pixel)(img.take(n)[f]));
                                lemma_count_matching_at(img.take(n), rgb_is(pixel), f);
                                assert(false);
                            }
                            assert(f == n);
                        }
                        let color_index = colors.len() - 1;
                        row.push(color_index as u8);
                        proof {
                            let ci = color_index as int;
                            let civ = color_index as u8;
                            assert(ci <= 255);
                            assert(civ as int == ci);

                            assert forall|i: int| 0 <= i < colors@.len() implies (
                            #[trigger] colors@[i]).count as int == count_matching(
                                img.take(n + 1),
                                rgb_is(colors@[i].rgb),
                            ) by {
                                lemma_count_matching_push(
                                    img.take(n),
                                    rgb_is(colors@[i].rgb),
                                    img[n],
                                );
                                if i < ci {
                                    assert(old_colors[i].rgb != pixel);
                                    assert(!rgb_is(colors@[i].rgb)(img[n]));
                                } else {
                                    assert(colors@[i].rgb == pixel);
                                    assert(rgb_is(colors@[i].rgb)(img[n]));
                                }
                            }

                            // no earlier grid entry carries the fresh index
                            assert forall|r: int, c: int|
                                0 <= r < pixels@.len() && 0 <= c < pixels@[r]@.len() implies !(
                                idx_is(civ)(#[trigger] pixels@[r]@[c])) by {
                                assert(pixels@[r]@[c] < old_colors.len());
                            }
                            lemma_count_grid_zero(pixels@, idx_is(civ));
                            assert forall|c: int| 0 <= c < old_row.len() implies !(idx_is(civ)(
                                #[trigger] old_row[c],
                            )) by {
                                assert(old_row[c] < old_colors.len());
                            }
                            lemma_count_matching_zero(old_row, idx_is(civ));

                            assert forall|i: int| 0 <= i < colors@.len() implies (
                            #[trigger] colors@[i]).count as int == count_matching_grid(
                                pixels@,
                                idx_is(i as u8),
                            ) + count_matching(row@, idx_is(i as u8)) by {
                                lemma_count_matching_push(old_row, idx_is(i as u8), civ);
                                if i < ci {
                                    assert(i as u8 != civ);
                                    assert(!idx_is(i as u8)(civ));
                                } else {
                                    assert(i as u8 == civ);
                                    assert(idx_is(i as u8)(civ));
                                }
                            }

                            assert forall|q: RGB|
                                #[trigger] count_matching(img.take(n + 1), rgb_is(q)) > 0
                                     implies exists|i: int|
                                0 <= i < colors@.len() && (#[trigger] colors@[i]).rgb == q by {
                                lemma_count_matching_push(img.take(n), rgb_is(q), img[n]);
                                if count_matching(img.take(n), rgb_is(q)) > 0 {
                                    let i = choose|i: int|
                                        0 <= i < old_colors.len() && (#[trigger] old_colors[i]).rgb
                                            == q;
                                    assert(colors@[i].rgb == q);
                                } else {
                                    assert(rgb_is(q)(img[n]));
                                    assert(colors@[ci].rgb == q);
                                }
                            }
                            n = n + 1;
                        }
                    },
                }
                x += 1;
            }
            let ghost old_pixels = pixels@;
            pixels.push(row);
            proof {
                assert forall|i: int| 0 <= i < colors@.len() implies (#[trigger] colors@[i]).count
                    as int == count_matching_grid(pixels@, idx_is(i as u8)) by {
                    lemma_count_grid_push(old_pixels, pixels@[pixels@.len() - 1], idx_is(i as u8));
                }
                assert((y + 1) * width == y * width + width) by (nonlinear_arith);
                assert(n == (y + 1) * width);
            }
            y += 1;
        }
        proof {
            assert(height * width == width * height) by (nonlinear_arith);
            assert(n == img.len());
            assert(img.take(n) =~= img);

            // every color of the image is a palette entry, so the image
            // holds at most as many distinct colors as the palette
            let rgbs = colors@.map_values(|cc: BoardDataColor| cc.rgb);
            assert forall|q: RGB| img.to_set().contains(q) implies rgbs.to_set().contains(q) by {
                assert(img.contains(q));
                let w = choose|w: int| 0 <= w < img.len() && img[w] == q;
                assert(rgb_is(q)(img[w]));
                lemma_count_matching_at(img, rgb_is(q), w);
                assert(count_matching(img.take(n), rgb_is(q)) > 0);
                let i = choose|i: int|
                    0 <= i < colors@.len() && (#[trigger] colors@[i]).rgb == q;
                assert(rgbs[i] == q);
                assert(rgbs.contains(q));
            }
            broadcast use vstd::seq_lib::seq_to_set_is_finite;
            assert(img.to_set().subset_of(rgbs.to_set()));
            vstd::set_lib::lemma_len_subset(img.to_set(), rgbs.to_set());
            rgbs.lemma_cardinality_of_set();
            assert(img.to_set().len() <= 256);
        }
        let r = Self { width, height, pixels, colors };
        proof {
            assert forall|y1: int, x1: int, y2: int, x2: int|
                0 <= y1 < height && 0 <= x1 < width && 0 <= y2 < height && 0 <= x2 < width
                    && img[y1 * width + x1] == img[y2 * width + x2] implies #[trigger] r.pixels@[y1]@[x1]
                    == #[trigger] r.pixels@[y2]@[x2] by {
                let i1 = r.pixels@[y1]@[x1] as int;
                let i2 = r.pixels@[y2]@[x2] as int;
                assert(r.colors@[i1].rgb == img[y1 * width + x1]);
                assert(r.colors@[i2].rgb == img[y2 * width + x2]);
                if i1 < i2 {
                    assert(r.colors@[i1].rgb != r.colors@[i2].rgb);
                } else if i2 < i1 {
                    assert(r.colors@[i2].rgb != r.colors@[i1].rgb);
                }
            }
        }
        Some(r)
    }
}

/// One fillable cell: its palette index and whether it has been painted.
#[derive(Clone, Copy, Debug)]
pub struct Cell {
    pub color: u8,
    pub filled: bool,
}

/// The playing board: a grid of cells, its palette, and the offset at
/// which the grid is drawn (panned by dragging).
pub struct Board {
    pub x: i16,
    pub y: i16,

    pub cells: Vec<Vec<Cell>>,
    pub width: usize,
    pub height: usize,
    pub palette: Palette,
}

/// The predicate "this cell carries palette index `v`".
pub open spec fn cell_color_is(v: u8) -> spec_fn(Cell) -> bool {
    |cl: Cell| cl.color == v
}

/// The predicate "this cell carries palette index `v` and is painted".
pub open spec fn cell_filled_color_is(v: u8) -> spec_fn(Cell) -> bool {
    |cl: Cell| cl.filled && cl.color == v
}

/// The rows of a cell grid, as sequences.
pub open spec fn grid_view(cells: Seq<Vec<Cell>>) -> Seq<Seq<Cell>> {
    cells.map_values(|r: Vec<Cell>| r@)
}

/// Division that rounds towards zero, as the hardware's signed division
/// does; `b` is expected positive.
pub open spec fn div_trunc(a: int, b: int) -> int {
    if a >= 0 {
        a / b
    } else {
        -((-a) / b)
    }
}

/// The board offset after this frame's drag, if the drag uses the middle
/// button.
pub open spec fn panned_x(b: Board, input: Input) -> int {
    match input.mouse_drag {
        Some(d) => if d.button == MouseButton::Middle {
            b.x + d.offset_x
        } else {
            b.x as int
        },
        None => b.x as int,
    }
}

pub open spec fn panned_y(b: Board, input: Input) -> int {
    match input.mouse_drag {
        Some(d) => if d.button == MouseButton::Middle {
            b.y + d.offset_y
        } else {
            b.y as int
        },
        None => b.y as int,
    }
}

/// What one frame-mouse entry does to the grid: with the left button
/// active over an unfilled cell of the selected color, that cell is
/// painted; anything else leaves the grid alone. `bx`, `by` is the board
/// offset, already panned.
pub open spec fn fill_one(
    g: Seq<Seq<Cell>>,
    sel: u8,
    fm: FrameMouse,
    bx: int,
    by: int,
) -> Seq<Seq<Cell>> {
    if fm.active_button == Some(MouseButton::Left) {
        let px = div_trunc(fm.x - bx, Board::CELL_WIDTH as int);
        let py = div_trunc(fm.y - by, Board::CELL_HEIGHT as int);
        if 0 <= py < g.len() && 0 <= px < g[py].len() {
            let cl = g[py][px];
            if !cl.filled && cl.color == sel {
                g.update(py, g[py].update(px, Cell { color: cl.color, filled: true }))
            } else {
                g
            }
        } else {
            g
        }
    } else {
        g
    }
}

/// The grid after a whole frame of mouse entries, oldest first.
pub open spec fn fill_frames(
    g: Seq<Seq<Cell>>,
    sel: u8,
    fms: Seq<FrameMouse>,
    bx: int,
    by: int,
) -> Seq<Seq<Cell>>
    decreases fms.len(),
{
    if fms.len() == 0 {
        g
    } else {
        fill_one(fill_frames(g, sel, fms.drop_last(), bx, by), sel, fms.last(), bx, by)
    }
}

/// Filling never resizes the grid or recolors a cell, never unpaints one,
/// and paints only cells of the selected color.
pub proof fn lemma_fill_frames_props(
    g: Seq<Seq<Cell>>,
    sel: u8,
    fms: Seq<FrameMouse>,
    bx: int,
    by: int,
)
    ensures
        fill_frames(g, sel, fms, bx, by).len() == g.len(),
        forall|r: int|
            0 <= r < g.len() ==> (#[trigger] fill_frames(g, sel, fms, bx, by)[r]).len()
                == g[r].len(),
        forall|r: int, c: int|
            0 <= r < g.len() && 0 <= c < g[r].len() ==> (#[trigger] fill_frames(
                g,
                sel,
                fms,
                bx,
                by,
            )[r][c]).color == g[r][c].color,
        forall|r: int, c: int|
            0 <= r < g.len() && 0 <= c < g[r].len() && g[r][c].filled ==> (#[trigger] fill_frames(
                g,
                sel,
                fms,
                bx,
                by,
            )[r][c]).filled,
        forall|r: int, c: int|
            0 <= r < g.len() && 0 <= c < g[r].len() && (#[trigger] fill_frames(
                g,
                sel,
                fms,
                bx,
                by,
            )[r][c]).filled && !g[r][c].filled ==> fill_frames(g, sel, fms, bx, by)[r][c].color
                == sel,
    decreases fms.len(),
{
    if fms.len() > 0 {
        lemma_fill_frames_props(g, sel, fms.drop_last(), bx, by);
        let prev = fill_frames(g, sel, fms.drop_last(), bx, by);
        let cur = fill_frames(g, sel, fms, bx, by);
        assert(cur == fill_one(prev, sel, fms.last(), bx, by));
    }
}

/// A well-formed board never counts more painted cells of a color than
/// it has cells of that color.
pub proof fn lemma_painted_le_count(b: Board)
    requires
        b.wf(),
    ensures
        forall|i: int|
            0 <= i < b.palette.colors@.len() ==> (#[trigger] b.palette.colors@[i]).painted
                <= b.palette.colors@[i].count,
{
    assert forall|i: int|
        0 <= i < b.palette.colors@.len() implies (#[trigger] b.palette.colors@[i]).painted
        <= b.palette.colors@[i].count by {
        lemma_count_grid_le(b.cells@, cell_filled_color_is(i as u8), cell_color_is(i as u8));
    }
}

impl Board {
    /// Width of one board cell on screen, in terminal columns.
    pub const CELL_WIDTH: u16 = 2;

    /// Height of one board cell on screen, in terminal lines.
    pub const CELL_HEIGHT: u16 = 1;

    /// Cells point into the palette; each palette entry counts its cells
    /// and how many of them are painted. Dimensions fit the signed 16-bit
    /// coordinate space the terminal is addressed with.
    pub open spec fn wf(self) -> bool {
        &&& self.cells@.len() == self.height
        &&& forall|r: int|
            0 <= r < self.height ==> (#[trigger] self.cells@[r])@.len() == self.width
        &&& self.width <= 32767
        &&& self.height <= 32767
        &&& self.palette.colors@.len() <= 256
        &&& forall|r: int, c: int|
            0 <= r < self.height && 0 <= c < self.width ==> (#[trigger] self.cells@[r]@[c]).color
                < self.palette.colors@.len()
        &&& forall|i: int|
            0 <= i < self.palette.colors@.len() ==> (#[trigger] self.palette.colors@[i]).count
                as int == count_matching_grid(self.cells@, cell_color_is(i as u8))
        &&& forall|i: int|
            0 <= i < self.palette.colors@.len() ==> (#[trigger] self.palette.colors@[i]).painted
                as int == count_matching_grid(self.cells@, cell_filled_color_is(i as u8))
    }

    /// A fresh board over a deduplicated image: every cell unfilled and
    /// carrying its pixel's color index, the palette taken from the
    /// image's colors, no pan.
    pub fn new(data: BoardData) -> (b: Self)
        requires
            data.wf(),
            data.width <= 32767,
            data.height <= 32767,
        ensures
            b.x == 0,
            b.y == 0,
            b.width == data.width,
            b.height == data.height,
            b.wf(),
            forall|r: int, c: int|
                0 <= r < data.height && 0 <= c < data.width ==> (#[trigger] b.cells@[r]@[c])
                    == (Cell { color: data.pixels@[r]@[c], filled: false }),
            b.palette.selected_color == 0,
            b.palette.colors@.len() == data.colors@.len(),
            forall|i: int|
                0 <= i < data.colors@.len() ==> #[trigger] b.palette.colors@[i] == (PaletteColor {
                    r: data.colors@[i].rgb.r,
                    g: data.colors@[i].rgb.g,
                    b: data.colors@[i].rgb.b,
                    painted: 0u32,
                    count: data.colors@[i].count,
                }),
    {
        let mut cells: Vec<Vec<Cell>> = Vec::new();

        let mut py: usize = 0;
        while py < data.height
            invariant
                0 <= py <= data.height,
                data.wf(),
                cells@.len() == py,
                forall|r: int| 0 <= r < py ==> (#[trigger] cells@[r])@.len() == data.width,
                forall|r: int, c: int|
                    0 <= r < py && 0 <= c < data.width ==> (#[trigger] cells@[r]@[c]) == (Cell {
                        color: data.pixels@[r]@[c],
                        filled: false,
                    }),
            decreases data.height - py,
        {
            let mut row: Vec<Cell> = Vec::new();
            let mut px: usize = 0;
            while px < data.width
                invariant
                    0 <= py < data.height,
                    0 <= px <= data.width,
                    data.wf(),
                    row@.len() == px,
                    forall|c: int|
                        0 <= c < px ==> (#[trigger] row@[c]) == (Cell {
                            color: data.pixels@[py as int]@[c],
                            filled: false,
                        }),
                decreases data.width - px,
            {
                row.push(Cell { color: data.pixels[py][px], filled: false });
                px += 1;
            }
            cells.push(row);
            py += 1;
        }

        let BoardData { width, height, pixels, colors } = data;
        let b = Self {
            x: 0,
            y: 0,

            width,
            height,
            cells,
            palette: Palette::new(colors),
        };
        proof {
            assert forall|i: int| 0 <= i < b.palette.colors@.len() implies (
            #[trigger] b.palette.colors@[i]).count as int == count_matching_grid(
                b.cells@,
                cell_color_is(i as u8),
            ) by {
                lemma_count_grid_pointwise(
                    pixels@,
                    b.cells@,
                    idx_is(i as u8),
                    cell_color_is(i as u8),
                );
            }
            assert forall|i: int| 0 <= i < b.palette.colors@.len() implies (
            #[trigger] b.palette.colors@[i]).painted as int == count_matching_grid(
                b.cells@,
                cell_filled_color_is(i as u8),
            ) by {
                lemma_count_grid_zero(b.cells@, cell_filled_color_is(i as u8));
            }
        }
        b
    }

    /// The grid width, from the first row.
    pub fn width(&self) -> (w: u16)
        requires
            self.wf(),
            self.height >= 1,
        ensures
            w as int == self.width,
    {
        self.cells[0].len() as u16
    }

    /// The grid height.
    pub fn height(&self) -> (h: u16)
        requires
            self.wf(),
        ensures
            h as int == self.height,
    {
        self.cells.len() as u16
    }

    pub fn get(&self, px: u16, py: u16) -> (c: Cell)
        requires
            self.wf(),
            (px as int) < self.width,
            (py as int) < self.height,
        ensures
            c == self.cells@[py as int]@[px as int],
    {
        self.cells[py as usize][px as usize]
    }

    /// Whether cell coordinates lie on the board.
    pub fn contains(&self, px: i16, py: i16) -> (c: bool)
        requires
            self.wf(),
            self.height >= 1,
        ensures
            c == (0 <= px < self.width && 0 <= py < self.height),
    {
        px >= 0 && px < self.width() as i16 && py >= 0 && py < self.height() as i16
    }

    /// Where cell `(px, py)` sits on a terminal of `term_w` by `term_h`
    /// cells, or nothing when any part of it would fall outside. This is
    /// the placement the drawing code uses.
    pub fn cell_screen_position(&self, px: u16, py: u16, term_w: u16, term_h: u16) -> (r: Option<
        (u16, u16),
    >)
        requires
            self.wf(),
            (px as int) < self.width,
            (py as int) < self.height,
        ensures
            ({
                let cx = self.x + Self::CELL_WIDTH * px;
                let cy = self.y + Self::CELL_HEIGHT * py;
                if 0 <= cx && cx + Self::CELL_WIDTH < term_w && 0 <= cy && cy
                    + Self::CELL_HEIGHT - 1 < term_h {
                    r == Some((cx as u16, cy as u16))
                } else {
                    r is None
                }
            }),
    {
        proof {
            assert(Self::CELL_WIDTH == 2 && Self::CELL_HEIGHT == 1);
        }
        let cx: i32 = self.x as i32 + 2 * px as i32;
        let cy: i32 = self.y as i32 + py as i32;

        if cx < 0 || cx + 2 >= term_w as i32 || cy < 0 || cy >= term_h as i32 {
            return None;
        }

        Some((cx as u16, cy as u16))
    }

    /// One frame of play: the palette picks up a click on its swatches,
    /// a middle-button drag pans the board, and every left-button mouse
    /// entry of the frame paints the cell under it if that cell carries
    /// the selected color. A cell is painted only if its color index
    /// equals the selected palette index; painted cells stay painted and
    /// keep their color.
    pub fn update(&mut self, input: &Input, term_w: u16, term_h: u16)
        requires
            old(self).wf(),
            input.mouse_x <= 32767,
            input.mouse_y <= 32767,
            PALETTE_TOTAL_WIDTH <= term_w <= 65504,
            2 * PALETTE_CELL_HEIGHT + 1 <= term_h <= 32767,
            match input.mouse_drag {
                Some(d) => d.button == MouseButton::Middle ==> i16::MIN <= old(self).x
                    + d.offset_x <= i16::MAX && i16::MIN <= old(self).y + d.offset_y
                    <= i16::MAX,
                None => true,
            },
        ensures
            final(self).wf(),
            final(self).width == old(self).width,
            final(self).height == old(self).height,
            final(self).x as int == panned_x(*old(self), *input),
            final(self).y as int == panned_y(*old(self), *input),
            match palette_hit(*input, term_w, term_h) {
                Some(h) => final(self).palette.selected_color as int == h,
                None => final(self).palette.selected_color == old(
                    self,
                ).palette.selected_color,
            },
            final(self).palette.colors@.len() == old(self).palette.colors@.len(),
            forall|i: int|
                0 <= i < old(self).palette.colors@.len() ==> {
                    let oc = #[trigger] old(self).palette.colors@[i];
                    let nc = final(self).palette.colors@[i];
                    nc.r == oc.r && nc.g == oc.g && nc.b == oc.b && nc.count == oc.count
                },
            grid_view(final(self).cells@) == fill_frames(
                grid_view(old(self).cells@),
                final(self).palette.selected_color,
                input.frame_mouses@,
                panned_x(*old(self), *input),
                panned_y(*old(self), *input),
            ),
            forall|r: int, c: int|
                0 <= r < old(self).height && 0 <= c < old(self).width ==> (
                #[trigger] final(self).cells@[r]@[c]).color == old(self).cells@[r]@[c].color,
            forall|r: int, c: int|
                0 <= r < old(self).height && 0 <= c < old(self).width && old(
                    self,
                ).cells@[r]@[c].filled ==> (#[trigger] final(self).cells@[r]@[c]).filled,
            forall|r: int, c: int|
                0 <= r < old(self).height && 0 <= c < old(self).width && (
                #[trigger] final(self).cells@[r]@[c]).filled && !old(self).cells@[r]@[c].filled
                    ==> final(self).cells@[r]@[c].color == final(self).palette.selected_color,
    {
        self.palette.update(input, term_w, term_h);

        if let Some(mouse_drag) = &input.mouse_drag {
            if mouse_drag.button == MouseButton::Middle {
                self.x = self.x + mouse_drag.offset_x;
                self.y = self.y + mouse_drag.offset_y;
            }
        }

        let ghost g0 = grid_view(self.cells@);
        let ghost sel = self.palette.selected_color;
        let ghost bx = self.x as int;
        let ghost by = self.y as int;
        let ghost fms = input.frame_mouses@;

        let mut i: usize = 0;
        while i < input.frame_mouses.len()
            invariant
                0 <= i <= fms.len(),
                fms == input.frame_mouses@,
                self.wf(),
                self.width == old(self).width,
                self.height == old(self).height,
                self.x as int == bx,
                self.y as int == by,
                self.palette.selected_color == sel,
                self.palette.colors@.len() == old(self).palette.colors@.len(),
                forall|k: int|
                    0 <= k < old(self).palette.colors@.len() ==> {
                        let oc = #[trigger] old(self).palette.colors@[k];
                        let nc = self.palette.colors@[k];
                        nc.r == oc.r && nc.g == oc.g && nc.b == oc.b && nc.count == oc.count
                    },
                grid_view(self.cells@) == fill_frames(g0, sel, fms.take(i as int), bx, by),
            decreases fms.len() - i,
        {
            proof {
                assert(fms.take(i + 1).drop_last() =~= fms.take(i as int));
                assert(fms.take(i + 1).last() == fms[i as int]);
            }
            let ghost g_before = grid_view(self.cells@);
            let fm = input.frame_mouses[i];

            if matches!(fm.active_button, Some(MouseButton::Left)) {
                let dx: i32 = fm.x as i32 - self.x as i32;
                let dy: i32 = fm.y as i32 - self.y as i32;
                let px: i32 = if dx >= 0 {
                    ((dx as u32) / (Self::CELL_WIDTH as u32)) as i32
                } else {
                    -((((-dx) as u32) / (Self::CELL_WIDTH as u32)) as i32)
                };
                let py: i32 = if dy >= 0 {
                    ((dy as u32) / (Self::CELL_HEIGHT as u32)) as i32
                } else {
                    -((((-dy) as u32) / (Self::CELL_HEIGHT as u32)) as i32)
                };
                proof {
                    assert(px as int == div_trunc(fm.x - bx, Self::CELL_WIDTH as int));
                    assert(py as int == div_trunc(fm.y - by, Self::CELL_HEIGHT as int));
                }

                if px >= 0 && (px as usize) < self.width && py >= 0 && (py as usize)
                    < self.height {
                    let ux = px as usize;
                    let uy = py as usize;
                    let cell = self.cells[uy][ux];
                    if !cell.filled && cell.color == self.palette.selected_color {
                        proof {
                            assert((sel as int) < self.palette.colors@.len());
                            lemma_count_grid_lt(
                                self.cells@,
                                cell_filled_color_is(sel),
                                cell_color_is(sel),
                                uy as int,
                                ux as int,
                            );
                        }
                        let ghost cells_before = self.cells@;
                        let ghost row_before = self.cells@[uy as int]@;
                        let new_cell = Cell { color: cell.color, filled: true };
                        let row = &mut self.cells[uy];
                        row.set(ux, new_cell);

                        let sel_idx = self.palette.selected_color as usize;
                        let pc = self.palette.colors[sel_idx];
                        self.palette.colors.set(
                            sel_idx,
                            PaletteColor {
                                r: pc.r,
                                g: pc.g,
                                b: pc.b,
                                painted: pc.painted + 1,
                                count: pc.count,
                            },
                        );

                        proof {
                            let rownew = self.cells@[uy as int];
                            assert(rownew@ =~= row_before.update(ux as int, new_cell));
                            assert(self.cells@ =~= cells_before.update(uy as int, rownew));

                            assert forall|k: int| 0 <= k < self.palette.colors@.len() implies (
                            #[trigger] self.palette.colors@[k]).count as int
                                == count_matching_grid(self.cells@, cell_color_is(k as u8)) by {
                                lemma_count_grid_update(
                                    cells_before,
                                    uy as int,
                                    rownew,
                                    cell_color_is(k as u8),
                                );
                                lemma_count_matching_update(
                                    row_before,
                                    ux as int,
                                    new_cell,
                                    cell_color_is(k as u8),
                                );
                            }
                            assert forall|k: int| 0 <= k < self.palette.colors@.len() implies (
                            #[trigger] self.palette.colors@[k]).painted as int
                                == count_matching_grid(
                                self.cells@,
                                cell_filled_color_is(k as u8),
                            ) by {
                                lemma_count_grid_update(
                                    cells_before,
                                    uy as int,
                                    rownew,
                                    cell_filled_color_is(k as u8),
                                );
                                lemma_count_matching_update(
                                    row_before,
                                    ux as int,
                                    new_cell,
                                    cell_filled_color_is(k as u8),
                                );
                                if k != sel as int {
                                    assert(k as u8 != sel);
                                    assert(!cell_filled_color_is(k as u8)(new_cell));
                                }
                            }
                            assert(grid_view(self.cells@) =~= fill_one(
                                g_before,
                                sel,
                                fms[i as int],
                                bx,
                                by,
                            ));
                        }
                    } else {
                        proof {
                            assert(grid_view(self.cells@) == fill_one(
                                g_before,
                                sel,
                                fms[i as int],
                                bx,
                                by,
                            ));
                        }
                    }
                } else {
                    proof {
                        assert(grid_view(self.cells@) == fill_one(
                            g_before,
                            sel,
                            fms[i as int],
                            bx,
                            by,
                        ));
                    }
                }
            } else {
                proof {
                    assert(fms[i as int].active_button != Some(MouseButton::Left));
                    assert(grid_view(self.cells@) == fill_one(
                        g_before,
                        sel,
                        fms[i as int],
                        bx,
                        by,
                    ));
                }
            }
            i += 1;
        }
        proof {
            assert(fms.take(fms.len() as int) =~= fms);
            lemma_fill_frames_props(g0, sel, fms, bx, by);
            let gf = fill_frames(g0, sel, fms, bx, by);
            assert forall|r: int, c: int|
                0 <= r < old(self).height && 0 <= c < old(self).width implies {
                &&& (#[trigger] self.cells@[r]@[c]).color == old(self).cells@[r]@[c].color
                &&& (old(self).cells@[r]@[c].filled ==> self.cells@[r]@[c].filled)
                &&& (self.cells@[r]@[c].filled && !old(self).cells@[r]@[c].filled
                    ==> self.cells@[r]@[c].color == sel)
            } by {
                assert(g0[r] == old(self).cells@[r]@);
                assert(g0.len() == old(self).height && g0[r].len() == old(self).width);
                assert(grid_view(self.cells@)[r] == self.cells@[r]@);
                assert(gf[r][c] == self.cells@[r]@[c]);
                assert(gf[r][c].color == g0[r][c].color);
            }
        }
    }
}

/// The index of the first palette entry carrying `rgb`, if any.
fn find_color(colors: &Vec<BoardDataColor>, rgb: RGB) -> (r: Option<usize>)
    ensures
        match r {
            Some(i) => i < colors@.len() && colors@[i as int].rgb == rgb,
            None => forall|j: int| 0 <= j < colors@.len() ==> (#[trigger] colors@[j]).rgb != rgb,
        },
{
    let mut i: usize = 0;
    while i < colors.len()
        invariant
            0 <= i <= colors@.len(),
            forall|j: int| 0 <= j < i ==> (#[trigger] colors@[j]).rgb != rgb,
        decreases colors@.len() - i,
    {
        if colors[i].rgb == rgb {
            return Some(i);
        }
        i += 1;
    }
    None
}

} // verus!
