use crate::grid::{cell_at, grid_cells, grid_height, grid_width, Grid};
use vstd::prelude::*;

verus! {

/// The largest sample value of the output encoding.
pub const SAMPLE_MAX: u64 = 65535;

/// Scaled samples below this are drawn as a blank.
pub const BLANK_BELOW: u16 = 6554;

/// Scaled samples below this, and not blank, are drawn as a dot.
pub const DOT_BELOW: u16 = 32767;

/// The ASCII codes of the characters of the text drawing.
pub const BLANK: u8 = 32;

pub const DOT: u8 = 46;

pub const STAR: u8 = 42;

pub const NEWLINE: u8 = 10;

/// Every cell lies in `[0, bound + 1]`.
pub open spec fn cells_within(cells: Seq<u64>, bound: nat) -> bool {
    forall|k: int| 0 <= k < cells.len() ==> #[trigger] cells[k] <= bound + 1
}

/// An escape value `e` of `[0, bound + 1]` mapped onto `[0, 65535]`, floored.
pub open spec fn scaled(bound: nat, e: nat) -> nat {
    (e * SAMPLE_MAX / (bound + 1) as int) as nat
}

/// The scaled samples of a sequence of escape values.
pub open spec fn scaled_cells(cells: Seq<u64>, bound: nat) -> Seq<u16> {
    Seq::new(cells.len(), |k: int| scaled(bound, cells[k] as nat) as u16)
}

/// The character, as an ASCII byte, that stands for a scaled sample.
pub open spec fn shade(v: u16) -> u8 {
    if v < BLANK_BELOW {
        BLANK
    } else if v < DOT_BELOW {
        DOT
    } else {
        STAR
    }
}

/// The sum of a sequence of samples.
pub open spec fn sample_sum(s: Seq<u16>) -> nat
    decreases s.len(),
{
    if s.len() == 0 {
        0
    } else {
        sample_sum(s.drop_last()) + s.last() as nat
    }
}

/// The text line of row `j`: one character per cell, then a newline.
pub open spec fn row_text(cells: Seq<u64>, width: nat, bound: nat, j: int) -> Seq<u8> {
    Seq::new(width, |i: int| shade(scaled(bound, cell_at(cells, width, j, i) as nat) as u16)).push(NEWLINE)
}

/// The text of the first `rows` rows.
pub open spec fn ascii_text(cells: Seq<u64>, width: nat, bound: nat, rows: nat) -> Seq<u8>
    decreases rows,
{
    if rows == 0 {
        Seq::empty()
    } else {
        ascii_text(cells, width, bound, (rows - 1) as nat) + row_text(
            cells,
            width,
            bound,
            rows - 1,
        )
    }
}

/// Maps an escape value of `[0, bound + 1]` onto the full 16-bit sample range.
pub fn scale(e: u64, bound: u32) -> (r: u16)
    requires
        e <= bound + 1,
    ensures
        r == scaled(bound as nat, e as nat),
{
    let d: u64 = bound as u64 + 1;
    proof {
        let ee = e as int;
        let dd = d as int;
        let m = SAMPLE_MAX as int;
        assert(ee * m <= dd * m) by (nonlinear_arith)
            requires
                ee <= dd,
                m >= 0,
        ;
        vstd::arithmetic::div_mod::lemma_div_is_ordered(ee * m, dd * m, dd);
        vstd::arithmetic::div_mod::lemma_div_multiples_vanish(m, dd);
        assert(dd * m == m * dd) by (nonlinear_arith);
    }
    (e * SAMPLE_MAX / d) as u16
}

/// The character, as an ASCII byte, that stands for a scaled sample: a blank,
/// a dot or a star, from low to high.
pub fn shade_of(v: u16) -> (r: u8)
    ensures
        r == shade(v),
{
    if v < BLANK_BELOW {
        BLANK
    } else if v < DOT_BELOW {
        DOT
    } else {
        STAR
    }
}

#[verifier::external_type_specification]
#[verifier::external_body]
pub struct ExImageError(image::ImageError);

/// The PNG file that the image crate writes for a 16-bit grayscale image of
/// `width` by `height` samples, row after row.
pub uninterp spec fn png_of(width: u32, height: u32, samples: Seq<u16>) -> Seq<u8>;

/// Relies on image's `ImageBuffer::from_raw`, which accepts a buffer of
/// `width * height` single-channel samples, and on `write_with_encoder` with its
/// `PngEncoder`, whose output is a function of the image alone. Writing into a
/// `Vec` cannot fail; the encoder refuses only a zero width or height.
#[verifier::external_body]
fn encode_png(width: u32, height: u32, samples: Vec<u16>) -> (r: Option<
    Result<Vec<u8>, image::ImageError>,
>)
    requires
        samples@.len() == width * height,
    ensures
        width > 0 && height > 0 ==> r matches Some(Ok(_)),
        width == 0 || height == 0 ==> r matches Some(Err(_)),
        r matches Some(Ok(bytes)) ==> bytes@ == png_of(width, height, samples@),
{
    let img: Option<image::ImageBuffer<image::Luma<u16>, Vec<u16>>> = image::ImageBuffer::from_raw(
        width,
        height,
        samples,
    );
    img.map(
        |img|
            {
                let mut out: Vec<u8> = Vec::new();
                img.write_with_encoder(image::codecs::png::PngEncoder::new(&mut out)).map(|()| out)
            },
    )
}

/// Why a grid could not be drawn as an image.
#[derive(Debug, Clone, Copy, PartialEq, Eq, Structural)]
pub enum RenderError {
    /// A side of the grid does not fit the image format's 32-bit sizes.
    TooLarge,
    /// The PNG encoder refused the image, which it does for a side of zero.
    Encode,
}

/// The grid as a 16-bit grayscale PNG image, one scaled sample per cell.
pub fn render_png(grid: &Grid, bound: u32) -> (r: Result<Vec<u8>, RenderError>)
    requires
        cells_within(grid_cells(*grid), bound as nat),
    ensures
        r == Err::<Vec<u8>, RenderError>(RenderError::TooLarge) <==> (grid_width(*grid) > u32::MAX
            || grid_height(*grid) > u32::MAX),
        (0 < grid_width(*grid) <= u32::MAX && 0 < grid_height(*grid) <= u32::MAX) ==> r is Ok,
        (grid_width(*grid) == 0 || grid_height(*grid) == 0) && grid_width(*grid) <= u32::MAX
            && grid_height(*grid) <= u32::MAX ==> r == Err::<Vec<u8>, RenderError>(
            RenderError::Encode,
        ),
        r matches Ok(bytes) ==> bytes@ == png_of(
            grid_width(*grid) as u32,
            grid_height(*grid) as u32,
            scaled_cells(grid_cells(*grid), bound as nat),
        ),
{
    let height = grid.height();
    let width = grid.width();
    if width > u32::MAX as usize || height > u32::MAX as usize {
        return Err(RenderError::TooLarge);
    }
    let samples = scaled_pixels(grid, bound);
    match encode_png(width as u32, height as u32, samples) {
        Some(Ok(bytes)) => Ok(bytes),
        _ => Err(RenderError::Encode),
    }
}

/// Whether every cell of the grid lies in `[0, bound + 1]`.
pub fn within_bound(grid: &Grid, bound: u32) -> (r: bool)
    ensures
        r == cells_within(grid_cells(*grid), bound as nat),
{
    let height = grid.height();
    let width = grid.width();
    let mut j: usize = 0;
    while j < height
        invariant
            height == grid_height(*grid),
            width == grid_width(*grid),
            grid_cells(*grid).len() == height * width,
            j <= height,
            forall|k: int| 0 <= k < j * width ==> #[trigger] grid_cells(*grid)[k] <= bound + 1,
        decreases height - j,
    {
        let mut i: usize = 0;
        while i < width
            invariant
                height == grid_height(*grid),
                width == grid_width(*grid),
                grid_cells(*grid).len() == height * width,
                j < height,
                i <= width,
                forall|k: int| 0 <= k < j * width + i ==> #[trigger] grid_cells(*grid)[k] <= bound + 1,
            decreases width - i,
        {
            if grid.get(j, i) > bound as u64 + 1 {
                proof {
                    assert(j * width + i < height * width) by (nonlinear_arith)
                        requires
                            j < height,
                            i < width,
                    ;
                    assert(grid_cells(*grid)[j * width + i] > bound + 1);
                }
                return false;
            }
            i = i + 1;
        }
        proof {
            assert((j + 1) * width == j * width + width) by (nonlinear_arith);
        }
        j = j + 1;
    }
    true
}

/// The scaled samples of the grid's cells, row after row.
pub fn scaled_pixels(grid: &Grid, bound: u32) -> (r: Vec<u16>)
    requires
        cells_within(grid_cells(*grid), bound as nat),
    ensures
        r@ == scaled_cells(grid_cells(*grid), bound as nat),
{
    let height = grid.height();
    let width = grid.width();
    let ghost cells = grid_cells(*grid);
    let mut r: Vec<u16> = Vec::new();
    let mut j: usize = 0;
    while j < height
        invariant
            height == grid_height(*grid),
            width == grid_width(*grid),
            cells == grid_cells(*grid),
            cells.len() == height * width,
            cells_within(cells, bound as nat),
            j <= height,
            r@.len() == j * width,
            forall|k: int| 0 <= k < r@.len() ==> #[trigger] r@[k] == scaled(bound as nat, cells[k] as nat),
        decreases height - j,
    {
        let mut i: usize = 0;
        proof {
            assert(j * width + width <= height * width) by (nonlinear_arith)
                requires
                    j < height,
            ;
        }
        while i < width
            invariant
                height == grid_height(*grid),
                width == grid_width(*grid),
                cells == grid_cells(*grid),
                cells.len() == height * width,
                cells_within(cells, bound as nat),
                j < height,
                i <= width,
                j * width + width <= height * width,
                r@.len() == j * width + i,
                forall|k: int| 0 <= k < r@.len() ==> #[trigger] r@[k] == scaled(bound as nat, cells[k] as nat),
            decreases width - i,
        {
            let e = grid.get(j, i);
            assert(cells[j * width + i] <= bound + 1);
            r.push(scale(e, bound));
            i = i + 1;
        }
        proof {
            assert((j + 1) * width == j * width + width) by (nonlinear_arith);
        }
        j = j + 1;
    }
    assert(r@ =~= scaled_cells(cells, bound as nat));
    r
}

/// The wrapping 16-bit sum of the grid's scaled samples, for comparing runs.
pub fn checksum(grid: &Grid, bound: u32) -> (r: u16)
    requires
        cells_within(grid_cells(*grid), bound as nat),
    ensures
        r == sample_sum(scaled_cells(grid_cells(*grid), bound as nat)) % 65536,
{
    let samples = scaled_pixels(grid, bound);
    let mut acc: u16 = 0;
    let mut k: usize = 0;
    while k < samples.len()
        invariant
            k <= samples@.len(),
            acc == sample_sum(samples@.take(k as int)) % 65536,
        decreases samples@.len() - k,
    {
        proof {
            assert(samples@.take(k + 1).drop_last() =~= samples@.take(k as int));
            vstd::arithmetic::div_mod::lemma_add_mod_noop(
                sample_sum(samples@.take(k as int)) as int,
                samples@[k as int] as int,
                65536,
            );
            assert((samples@[k as int] as int) % 65536 == samples@[k as int] as int);
            assert((acc as int) % 65536 == acc as int);
        }
        acc = acc.wrapping_add(samples[k]);
        k = k + 1;
    }
    assert(samples@.take(k as int) =~= samples@);
    acc
}

/// The grid drawn as text: one line per row, one character per cell.
pub fn ascii_art(grid: &Grid, bound: u32) -> (r: Vec<u8>)
    requires
        cells_within(grid_cells(*grid), bound as nat),
    ensures
        r@ == ascii_text(grid_cells(*grid), grid_width(*grid), bound as nat, grid_height(*grid)),
{
    let height = grid.height();
    let width = grid.width();
    let ghost cells = grid_cells(*grid);
    let mut r: Vec<u8> = Vec::new();
    let mut j: usize = 0;
    while j < height
        invariant
            height == grid_height(*grid),
            width == grid_width(*grid),
            cells == grid_cells(*grid),
            cells.len() == height * width,
            cells_within(cells, bound as nat),
            j <= height,
            r@ == ascii_text(cells, width as nat, bound as nat, j as nat),
        decreases height - j,
    {
        let ghost before = r@;
        let mut i: usize = 0;
        proof {
            assert(j * width + width <= height * width) by (nonlinear_arith)
                requires
                    j < height,
            ;
        }
        while i < width
            invariant
                height == grid_height(*grid),
                width == grid_width(*grid),
                cells == grid_cells(*grid),
                cells.len() == height * width,
                cells_within(cells, bound as nat),
                j < height,
                i <= width,
                j * width + width <= height * width,
                r@.len() == before.len() + i,
                r@.take(before.len() as int) == before,
                forall|ii: int|
                    0 <= ii < i ==> #[trigger] r@[before.len() + ii] == row_text(
                        cells,
                        width as nat,
                        bound as nat,
                        j as int,
                    )[ii],
            decreases width - i,
        {
            let e = grid.get(j, i);
            assert(cells[j * width + i] <= bound + 1);
            let c = shade_of(scale(e, bound));
            proof {
                assert(r@.push(c).take(before.len() as int) =~= r@.take(before.len() as int));
            }
            r.push(c);
            i = i + 1;
        }
        proof {
            let line = row_text(cells, width as nat, bound as nat, j as int);
            assert forall|k: int| 0 <= k < r@.len() implies r@[k] == (before + line.drop_last())[k] by {
                if k < before.len() {
                    assert(r@.take(before.len() as int)[k] == r@[k]);
                } else {
                    let ii = k - before.len();
                    assert(r@[before.len() + ii] == line[ii]);
                }
            }
            assert(r@ =~= before + line.drop_last());
        }
        r.push(NEWLINE);
        proof {
            let line = row_text(cells, width as nat, bound as nat, j as int);
            assert(line.drop_last().push(NEWLINE) =~= line);
            assert(r@ =~= before + line);
        }
        j = j + 1;
    }
    r
}

} // verus!
