use crate::color::Color;
use crate::grid::{
    agree_inside, at, cell_at, col, interior, lemma_flat_row_col, lemma_row_col_flat, row,
};
use crate::parallel::par_tabulate;
use crate::text::{append_zero_padded, zero_padded};
use vstd::prelude::*;
use vstd::string::StringExecFns;

verus! {

/// One raster image ready to be written: where it goes, its dimensions in pixels, and
/// its RGBA8 bytes, row by row from the top.
#[derive(Debug)]
pub struct Frame {
    pub path: String,
    pub width: u32,
    pub height: u32,
    pub pixels: Vec<u8>,
}

/// The mathematical content of a [`Frame`].
pub struct FrameView {
    pub path: Seq<char>,
    pub width: int,
    pub height: int,
    pub pixels: Seq<u8>,
}

impl View for Frame {
    type V = FrameView;

    open spec fn view(&self) -> FrameView {
        FrameView {
            path: self.path@,
            width: self.width as int,
            height: self.height as int,
            pixels: self.pixels@,
        }
    }
}

/// Byte `which` of the opaque RGBA pixel for a colour: red, green, blue, then an alpha
/// of 255.
pub open spec fn rgba(c: Color, which: int) -> u8 {
    if which == 0 {
        c.r
    } else if which == 1 {
        c.g
    } else if which == 2 {
        c.b
    } else {
        255
    }
}

/// Byte `b` of the image of a grid's interior: the ghost border is left out, so pixel
/// `(i, j)` shows cell `(i + 1, j + 1)`.
pub open spec fn interior_byte(grid: Seq<Color>, size: int, b: int) -> u8 {
    rgba(at(grid, size, row(size - 2, b / 4) + 1, col(size - 2, b / 4) + 1), b % 4)
}

/// The RGBA8 bytes of the image of a grid's interior, four per pixel, row by row.
pub open spec fn interior_pixels(grid: Seq<Color>, size: int) -> Seq<u8> {
    Seq::new(
        (4 * ((size - 2) * (size - 2))) as nat,
        |b: int| interior_byte(grid, size, b),
    )
}

/// Where the frame of step `step` of the channel `folder` is written:
/// `output/<folder>/<folder><step>.png`, the step in decimal with at least four digits.
pub open spec fn path_text(folder: Seq<char>, step: nat) -> Seq<char> {
    "output/"@ + folder + "/"@ + folder + zero_padded(step, 4) + ".png"@
}

/// The frame that shows the interior of `grid` at step `step` of the channel `folder`.
pub open spec fn grid_frame(
    grid: Seq<Color>,
    size: int,
    step: nat,
    folder: Seq<char>,
) -> FrameView {
    FrameView {
        path: path_text(folder, step),
        width: size - 2,
        height: size - 2,
        pixels: interior_pixels(grid, size),
    }
}

/// What [`frame_for_grid`] and [`frame_for_grid_par`] need of a grid: it is square with
/// a border, and its interior image fits the machine's sizes.
pub open spec fn can_frame(len: int, size: int) -> bool {
    &&& 3 <= size
    &&& len == size * size
    &&& size - 2 <= u32::MAX
    &&& 4 * ((size - 2) * (size - 2)) <= usize::MAX
}

/// Builds the path of a frame.
pub fn frame_path(folder: &str, step: usize) -> (path: String)
    ensures
        path@ == path_text(folder@, step as nat),
{
    let mut path = String::new();
    path.append("output/");
    path.append(folder);
    path.append("/");
    path.append(folder);
    append_zero_padded(&mut path, step, 4);
    path.append(".png");
    path
}

/// Byte `b` of the image of the grid's interior.
pub fn pixel_byte(grid: &Vec<Color>, grid_size: usize, b: usize) -> (byte: u8)
    requires
        can_frame(grid.len() as int, grid_size as int),
        b < 4 * ((grid_size - 2) * (grid_size - 2)),
    ensures
        byte == interior_byte(grid@, grid_size as int, b as int),
{
    let extent = grid_size - 2;
    let pixel = b / 4;
    proof {
        lemma_row_col_flat(extent as int, pixel as int);
    }
    let i = pixel / extent;
    let j = pixel % extent;
    let color = cell_at(grid, grid_size, i + 1, j + 1);
    let which = b % 4;
    if which == 0 {
        color.r
    } else if which == 1 {
        color.g
    } else if which == 2 {
        color.b
    } else {
        255
    }
}

/// Renders the interior of a colour grid, pixel by pixel, into the frame for `step`.
pub fn frame_for_grid(grid: &Vec<Color>, grid_size: usize, step: usize, folder: &str) -> (frame:
    Frame)
    requires
        can_frame(grid.len() as int, grid_size as int),
    ensures
        frame@ == grid_frame(grid@, grid_size as int, step as nat, folder@),
        frame@.pixels.len() == 4 * (frame@.width * frame@.height),
{
    let extent = grid_size - 2;
    let mut buffer: Vec<u8> = Vec::new();
    assert(0 * extent == 0);

    for i in 0..extent
        invariant
            extent == grid_size - 2,
            can_frame(grid.len() as int, grid_size as int),
            buffer@.len() == 4 * (i * extent),
            forall|b: int|
                0 <= b < buffer@.len() ==> buffer@[b] == interior_byte(grid@, grid_size as int, b),
    {
        for j in 0..extent
            invariant
                extent == grid_size - 2,
                i < extent,
                can_frame(grid.len() as int, grid_size as int),
                buffer@.len() == 4 * (i * extent + j),
                forall|b: int|
                    0 <= b < buffer@.len() ==> buffer@[b] == interior_byte(
                        grid@,
                        grid_size as int,
                        b,
                    ),
        {
            proof {
                lemma_flat_row_col(extent as int, i as int, j as int);
            }
            let color = cell_at(grid, grid_size, i + 1, j + 1);
            buffer.push(color.r);
            buffer.push(color.g);
            buffer.push(color.b);
            buffer.push(255);
        }
        assert(i * extent + extent == (i + 1) * extent) by (nonlinear_arith);
    }
    assert(buffer@ =~= interior_pixels(grid@, grid_size as int));

    Frame {
        path: frame_path(folder, step),
        width: extent as u32,
        height: extent as u32,
        pixels: buffer,
    }
}

/// Renders the interior of a colour grid into the frame for `step`, every byte
/// computed independently in parallel.
pub fn frame_for_grid_par(grid: &Vec<Color>, grid_size: usize, step: usize, folder: &str) -> (frame:
    Frame)
    requires
        can_frame(grid.len() as int, grid_size as int),
    ensures
        frame@ == grid_frame(grid@, grid_size as int, step as nat, folder@),
        frame@.pixels.len() == 4 * (frame@.width * frame@.height),
{
    let extent = grid_size - 2;
    let len = 4 * (extent * extent);
    let buffer = par_tabulate(len, |b: usize| -> (byte: u8)
        requires
            b < len,
        ensures
            byte == interior_byte(grid@, grid_size as int, b as int),
    {
        pixel_byte(grid, grid_size, b)
    });
    assert(buffer@ =~= interior_pixels(grid@, grid_size as int));

    Frame {
        path: frame_path(folder, step),
        width: extent as u32,
        height: extent as u32,
        pixels: buffer,
    }
}

/// A frame shows the interior only: grids that agree there give the same frame.
pub proof fn frame_shows_interior(
    g: Seq<Color>,
    h: Seq<Color>,
    size: int,
    step: nat,
    folder: Seq<char>,
)
    requires
        3 <= size,
        agree_inside(g, h, size),
    ensures
        grid_frame(g, size, step, folder) == grid_frame(h, size, step, folder),
{
    let extent = size - 2;
    assert forall|b: int| 0 <= b < 4 * (extent * extent) implies interior_byte(g, size, b)
        == interior_byte(h, size, b) by {
        lemma_row_col_flat(extent, b / 4);
        assert(interior(size, row(extent, b / 4) + 1, col(extent, b / 4) + 1));
    }
    assert(interior_pixels(g, size) =~= interior_pixels(h, size));
}

} // verus!
