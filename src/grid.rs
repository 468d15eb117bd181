use vstd::prelude::*;

verus! {

/// A grid of escape values, `height` rows of `width` cells, held row-major in
/// an ndarray two-dimensional array.
#[verifier::external_body]
pub struct Grid {
    cells: ndarray::Array2<u64>,
}

/// The cells of a grid, row after row.
pub uninterp spec fn grid_cells(g: Grid) -> Seq<u64>;

/// The number of rows and the number of columns of a grid.
pub uninterp spec fn grid_shape(g: Grid) -> (nat, nat);

pub open spec fn grid_height(g: Grid) -> nat {
    grid_shape(g).0
}

pub open spec fn grid_width(g: Grid) -> nat {
    grid_shape(g).1
}

/// The cell in row `j` and column `i` of a row-major sequence of rows of `width` cells.
pub open spec fn cell_at(cells: Seq<u64>, width: nat, j: int, i: int) -> u64 {
    cells[j * width + i]
}

/// A `height` by `width` array can be allocated by ndarray: the product of the
/// nonzero axis lengths stays within `isize::MAX`.
pub open spec fn fits_grid(height: nat, width: nat) -> bool {
    &&& height <= isize::MAX
    &&& width <= isize::MAX
    &&& height * width <= isize::MAX
}

/// What a grid cell holds for an escape result: the escape index, or `bound + 1`
/// for a point that did not escape.
pub open spec fn cell_value(bound: nat, e: Option<u32>) -> nat {
    match e {
        Some(g) => g as nat,
        None => bound + 1,
    }
}

/// `v` is a cell value that `pixel` may give for column `i` of row `j`.
pub open spec fn is_cell<F: Fn(usize, usize) -> Option<u32>>(
    pixel: F,
    bound: nat,
    i: usize,
    j: usize,
    v: u64,
) -> bool {
    exists|e: Option<u32>| pixel.ensures((i, j), e) && v == cell_value(bound, e)
}

/// `g` is the escape grid of `height` rows and `width` columns for `pixel`:
/// the cell in row `j` and column `i` holds the cell value of a result that
/// `pixel` gives for `(i, j)`.
pub open spec fn is_escape_grid<F: Fn(usize, usize) -> Option<u32>>(
    g: Grid,
    pixel: F,
    bound: nat,
    width: usize,
    height: usize,
) -> bool {
    &&& grid_shape(g) == (height as nat, width as nat)
    &&& grid_cells(g).len() == height * width
    &&& forall|j: usize, i: usize|
        j < height && i < width ==> is_cell(
            pixel,
            bound,
            i,
            j,
            #[trigger] cell_at(grid_cells(g), width as nat, j as int, i as int),
        )
}

/// `pixel` gives at most one result for each point.
pub open spec fn is_deterministic<F: Fn(usize, usize) -> Option<u32>>(pixel: F) -> bool {
    forall|i: usize, j: usize, e1: Option<u32>, e2: Option<u32>|
        #[trigger] pixel.ensures((i, j), e1) && #[trigger] pixel.ensures((i, j), e2) ==> e1 == e2
}

/// Every escape index that `pixel` gives lies below `bound`.
pub open spec fn escapes_below<F: Fn(usize, usize) -> Option<u32>>(pixel: F, bound: nat) -> bool {
    forall|i: usize, j: usize, e: Option<u32>|
        #[trigger] pixel.ensures((i, j), e) ==> (e matches Some(g) ==> g < bound)
}

/// Relies on ndarray's `Array2::from_shape_vec`: with a length that matches the
/// shape and a shape whose nonzero lengths multiply to at most `isize::MAX`, it
/// succeeds and keeps the vector as the array's row-major contents.
#[verifier::external_body]
fn grid_from_shape_vec(height: usize, width: usize, cells: Vec<u64>) -> (g: Grid)
    requires
        fits_grid(height as nat, width as nat),
        cells@.len() == height * width,
    ensures
        grid_shape(g) == (height as nat, width as nat),
        grid_cells(g) == cells@,
{
    Grid { cells: ndarray::Array2::from_shape_vec((height, width), cells).unwrap() }
}

impl Grid {
    /// Relies on ndarray's `nrows`: the length of the first axis, of an array
    /// that holds exactly `nrows * ncols` elements.
    #[verifier::external_body]
    fn nrows(&self) -> (r: usize)
        ensures
            r == grid_height(*self),
            grid_cells(*self).len() == r * grid_width(*self),
    {
        self.cells.nrows()
    }

    /// Relies on ndarray's `ncols`: the length of the second axis.
    #[verifier::external_body]
    fn ncols(&self) -> (r: usize)
        ensures
            r == grid_width(*self),
    {
        self.cells.ncols()
    }

    /// Relies on ndarray's indexing by `[row, column]`, which reads a
    /// standard-layout array row-major.
    #[verifier::external_body]
    fn index(&self, j: usize, i: usize) -> (r: u64)
        requires
            j < grid_height(*self),
            i < grid_width(*self),
        ensures
            r == cell_at(grid_cells(*self), grid_width(*self), j as int, i as int),
    {
        self.cells[[j, i]]
    }

    /// The number of rows.
    pub fn height(&self) -> (r: usize)
        ensures
            r == grid_height(*self),
            grid_cells(*self).len() == r * grid_width(*self),
    {
        self.nrows()
    }

    /// The number of columns.
    pub fn width(&self) -> (r: usize)
        ensures
            r == grid_width(*self),
    {
        self.ncols()
    }

    /// The cell in row `j` and column `i`.
    pub fn get(&self, j: usize, i: usize) -> (r: u64)
        requires
            j < grid_height(*self),
            i < grid_width(*self),
        ensures
            r == cell_at(grid_cells(*self), grid_width(*self), j as int, i as int),
    {
        self.index(j, i)
    }
}

proof fn lemma_row_major_below(jj: int, i: int, j: int, width: int)
    requires
        0 <= jj < j,
        0 <= i < width,
    ensures
        0 <= jj * width + i < j * width,
{
    assert(0 <= jj * width + i < j * width) by (nonlinear_arith)
        requires
            0 <= jj < j,
            0 <= i < width,
    ;
}

/// The contents of each row.
pub open spec fn row_views(rows: Seq<Vec<u64>>) -> Seq<Seq<u64>> {
    rows.map_values(|row: Vec<u64>| row@)
}

/// `g` has `rows.len()` rows of `width` cells, and row `j` is `rows[j]`.
pub open spec fn is_grid_of_rows(g: Grid, rows: Seq<Seq<u64>>, width: nat) -> bool {
    &&& grid_shape(g) == (rows.len(), width)
    &&& grid_cells(g).len() == rows.len() * width
    &&& forall|j: int, i: int|
        0 <= j < rows.len() && 0 <= i < width ==> cell_at(grid_cells(g), width, j, i)
            == #[trigger] rows[j][i]
}

/// The grid whose row `j` is `rows[j]`.
pub fn from_rows(width: usize, rows: Vec<Vec<u64>>) -> (g: Grid)
    requires
        fits_grid(rows@.len(), width as nat),
        forall|j: int| 0 <= j < rows@.len() ==> (#[trigger] rows@[j])@.len() == width,
    ensures
        is_grid_of_rows(g, row_views(rows@), width as nat),
{
    let mut flat: Vec<u64> = Vec::new();
    let mut j: usize = 0;
    while j < rows.len()
        invariant
            j <= rows@.len(),
            fits_grid(rows@.len(), width as nat),
            forall|j: int| 0 <= j < rows@.len() ==> (#[trigger] rows@[j])@.len() == width,
            flat@.len() == j * width,
            forall|jj: int, i: int|
                0 <= jj < j && 0 <= i < width ==> flat@[jj * width + i] == #[trigger] rows@[jj]@[i],
        decreases rows@.len() - j,
    {
        let row = &rows[j];
        let mut i: usize = 0;
        proof {
            assert(j * width <= rows@.len() * width) by (nonlinear_arith)
                requires
                    j <= rows@.len(),
            ;
        }
        while i < width
            invariant
                j < rows@.len(),
                row@ == rows@[j as int]@,
                row@.len() == width,
                i <= width,
                j * width <= rows@.len() * width,
                fits_grid(rows@.len(), width as nat),
                flat@.len() == j * width + i,
                forall|jj: int, i: int|
                    0 <= jj < j && 0 <= i < width ==> flat@[jj * width + i]
                        == #[trigger] rows@[jj]@[i],
                forall|ii: int| 0 <= ii < i ==> flat@[j * width + ii] == #[trigger] row@[ii],
            decreases width - i,
        {
            proof {
                assert forall|jj: int, ii: int| 0 <= jj < j && 0 <= ii < width implies jj * width
                    + ii < flat@.len() && #[trigger] rows@[jj]@[ii] == rows@[jj]@[ii] by {
                    lemma_row_major_below(jj, ii, j as int, width as int);
                }
            }
            flat.push(row[i]);
            i = i + 1;
        }
        proof {
            assert((j + 1) * width == j * width + width) by (nonlinear_arith);
        }
        j = j + 1;
    }
    let g = grid_from_shape_vec(rows.len(), width, flat);
    assert forall|j: int, i: int| 0 <= j < rows@.len() && 0 <= i < width implies cell_at(
        grid_cells(g),
        width as nat,
        j,
        i,
    ) == #[trigger] row_views(rows@)[j][i] by {
        assert(row_views(rows@)[j] == rows@[j]@);
        assert(flat@[j * width + i] == rows@[j]@[i]);
    }
    g
}

/// The escape values of row `row`: column `i` holds the cell value of what
/// `pixel` gives for column `i` of that row.
pub fn escape_row<F: Fn(usize, usize) -> Option<u32>>(
    bound: u32,
    row: usize,
    width: usize,
    pixel: &F,
) -> (r: Vec<u64>)
    requires
        forall|i: usize| i < width ==> pixel.requires((i, row)),
    ensures
        r@.len() == width,
        forall|i: usize| i < width ==> is_cell(*pixel, bound as nat, i, row, #[trigger] r@[i as int]),
{
    let mut r: Vec<u64> = Vec::new();
    let mut i: usize = 0;
    while i < width
        invariant
            i <= width,
            r@.len() == i,
            forall|i: usize| i < width ==> pixel.requires((i, row)),
            forall|k: usize| k < i ==> is_cell(*pixel, bound as nat, k, row, #[trigger] r@[k as int]),
        decreases width - i,
    {
        let e = pixel(i, row);
        let v: u64 = match e {
            Some(g) => g as u64,
            None => bound as u64 + 1,
        };
        assert(pixel.ensures((i, row), e));
        assert(v == cell_value(bound as nat, e));
        assert(is_cell(*pixel, bound as nat, i, row, v));
        r.push(v);
        i = i + 1;
    }
    r
}

/// The escape grid of `height` rows and `width` columns: the cell in row `j`
/// and column `i` holds the cell value of what `pixel` gives for `(i, j)`.
/// A zero width or height gives an empty grid.
pub fn mandelbrot<F: Fn(usize, usize) -> Option<u32>>(
    bound: u32,
    width: usize,
    height: usize,
    pixel: F,
) -> (g: Grid)
    requires
        fits_grid(height as nat, width as nat),
        forall|i: usize, j: usize| i < width && j < height ==> pixel.requires((i, j)),
    ensures
        is_escape_grid(g, pixel, bound as nat, width, height),
        width == 0 || height == 0 ==> grid_cells(g).len() == 0,
{
    let mut rows: Vec<Vec<u64>> = Vec::new();
    let mut j: usize = 0;
    while j < height
        invariant
            j <= height,
            rows@.len() == j,
            forall|i: usize, j: usize| i < width && j < height ==> pixel.requires((i, j)),
            forall|k: int| 0 <= k < j ==> (#[trigger] rows@[k])@.len() == width,
            forall|k: usize, i: usize|
                k < j && i < width ==> is_cell(pixel, bound as nat, i, k, #[trigger] rows@[k as int]@[i as int]),
        decreases height - j,
    {
        let row = escape_row(bound, j, width, &pixel);
        rows.push(row);
        j = j + 1;
    }
    let g = from_rows(width, rows);
    proof {
        let rs = row_views(rows@);
        assert forall|j: usize, i: usize| j < height && i < width implies is_cell(
            pixel,
            bound as nat,
            i,
            j,
            #[trigger] rs[j as int][i as int],
        ) by {
            assert(rs[j as int] == rows@[j as int]@);
        }
        lemma_rows_make_escape_grid(pixel, bound, width, height, rs, g);
    }
    assert(width == 0 || height == 0 ==> height * width == 0) by (nonlinear_arith);
    g
}

/// A grid assembled from rows, each of which holds the cell values of what
/// `pixel` gives for its points, is the escape grid for `pixel`: computing the
/// rows separately, in any order or on any number of threads, gives the grid.
pub proof fn lemma_rows_make_escape_grid<F: Fn(usize, usize) -> Option<u32>>(
    pixel: F,
    bound: u32,
    width: usize,
    height: usize,
    rows: Seq<Seq<u64>>,
    g: Grid,
)
    requires
        rows.len() == height,
        forall|j: usize, i: usize|
            j < height && i < width ==> is_cell(pixel, bound as nat, i, j, #[trigger] rows[j as int][i as int]),
        is_grid_of_rows(g, rows, width as nat),
    ensures
        is_escape_grid(g, pixel, bound as nat, width, height),
{
    assert forall|j: usize, i: usize| j < height && i < width implies is_cell(
        pixel,
        bound as nat,
        i,
        j,
        #[trigger] cell_at(grid_cells(g), width as nat, j as int, i as int),
    ) by {
        assert(cell_at(grid_cells(g), width as nat, j as int, i as int) == rows[j as int][i as int]);
    }
}

proof fn lemma_row_major_split(k: int, width: int)
    requires
        0 <= k,
        0 < width,
    ensures
        k == (k / width) * width + k % width,
        0 <= k % width < width,
        0 <= k / width,
{
    assert(k == (k / width) * width + k % width) by (nonlinear_arith)
        requires
            0 < width,
    ;
}

/// Generating the grid twice with the same bound, size and a deterministic
/// pixel function gives the same cells, whatever the order of the work.
pub proof fn lemma_mandelbrot_deterministic<F: Fn(usize, usize) -> Option<u32>>(
    pixel: F,
    bound: u32,
    width: usize,
    height: usize,
    g1: Grid,
    g2: Grid,
)
    requires
        is_deterministic(pixel),
        is_escape_grid(g1, pixel, bound as nat, width, height),
        is_escape_grid(g2, pixel, bound as nat, width, height),
    ensures
        grid_cells(g1) == grid_cells(g2),
        grid_shape(g1) == grid_shape(g2),
{
    let c1 = grid_cells(g1);
    let c2 = grid_cells(g2);
    assert forall|k: int| 0 <= k < c1.len() implies c1[k] == c2[k] by {
        assert(width > 0) by (nonlinear_arith)
            requires
                0 <= k < height * width,
        ;
        lemma_row_major_split(k, width as int);
        let j = k / (width as int);
        let i = k % (width as int);
        assert(j < height) by (nonlinear_arith)
            requires
                k == j * width + i,
                0 <= i,
                k < height * width,
        ;
        assert(is_cell(pixel, bound as nat, i as usize, j as usize, cell_at(c1, width as nat, j, i)));
        assert(is_cell(pixel, bound as nat, i as usize, j as usize, cell_at(c2, width as nat, j, i)));
    }
    assert(c1 =~= c2);
}

/// When every escape index that `pixel` gives lies below `bound`, every cell
/// lies in `[0, bound + 1]`; a cell of `bound + 1` comes from a point that did
/// not escape, and a smaller one is the escape index given for its point.
pub proof fn lemma_mandelbrot_cell_range<F: Fn(usize, usize) -> Option<u32>>(
    pixel: F,
    bound: u32,
    width: usize,
    height: usize,
    g: Grid,
)
    requires
        escapes_below(pixel, bound as nat),
        is_escape_grid(g, pixel, bound as nat, width, height),
    ensures
        forall|j: usize, i: usize|
            j < height && i < width ==> {
                let v = #[trigger] cell_at(grid_cells(g), width as nat, j as int, i as int);
                &&& v <= bound + 1
                &&& v == bound + 1 ==> pixel.ensures((i, j), None::<u32>)
                &&& v < bound + 1 ==> pixel.ensures((i, j), Some(v as u32))
            },
{
    assert forall|j: usize, i: usize| j < height && i < width implies {
        let v = #[trigger] cell_at(grid_cells(g), width as nat, j as int, i as int);
        &&& v <= bound + 1
        &&& v == bound + 1 ==> pixel.ensures((i, j), None::<u32>)
        &&& v < bound + 1 ==> pixel.ensures((i, j), Some(v as u32))
    } by {
        let v = cell_at(grid_cells(g), width as nat, j as int, i as int);
        assert(is_cell(pixel, bound as nat, i, j, v));
        let e = choose|e: Option<u32>| pixel.ensures((i, j), e) && v == cell_value(bound as nat, e);
        assert(pixel.ensures((i, j), e));
    }
}

} // verus!
