//! The grid of alive and dead cells that the encoder reads.
use vstd::prelude::*;

verus! {

/// Luminance from which a pixel counts as alive: half of the 8-bit range.
pub const ALIVE_THRESHOLD: u8 = 128;

/// Rows of equal, positive length, and at least one row.
pub open spec fn rectangular(rows: Seq<Seq<bool>>) -> bool {
    &&& rows.len() >= 1
    &&& rows[0].len() >= 1
    &&& forall|y: int| 0 <= y < rows.len() ==> #[trigger] rows[y].len() == rows[0].len()
}

/// The views of a sequence of rows.
pub open spec fn rows_view(rows: Seq<Vec<bool>>) -> Seq<Seq<bool>> {
    rows.map_values(|r: Vec<bool>| r@)
}

/// Whether a pixel of the given luminance is alive.
pub open spec fn luma_alive(luma: u8) -> bool {
    luma >= ALIVE_THRESHOLD
}

/// Why a grid could not be built.
#[derive(Debug, Clone, Copy, PartialEq, Eq, Structural)]
pub enum GridError {
    /// Zero width or zero height.
    EmptyImage,
    /// Rows of different lengths.
    RaggedRows,
    /// The pixel buffer does not hold width times height values.
    SizeMismatch,
}

/// A non-empty rectangular grid of cells, `true` for alive.
pub struct Grid {
    width: usize,
    rows: Vec<Vec<bool>>,
}

impl View for Grid {
    type V = Seq<Seq<bool>>;

    closed spec fn view(&self) -> Seq<Seq<bool>> {
        rows_view(self.rows@)
    }
}

impl Grid {
    #[verifier::type_invariant]
    spec fn inv(self) -> bool {
        &&& rectangular(rows_view(self.rows@))
        &&& self.width == self.rows@[0]@.len()
    }

    /// Builds a grid from its rows, top to bottom.
    pub fn from_rows(rows: Vec<Vec<bool>>) -> (r: Result<Grid, GridError>)
        ensures
            (rows@.len() == 0 || rows@[0]@.len() == 0) ==> r == Err::<Grid, GridError>(
                GridError::EmptyImage,
            ),
            !(rows@.len() == 0 || rows@[0]@.len() == 0) ==> (r is Ok <==> rectangular(
                rows_view(rows@),
            )),
            !(rows@.len() == 0 || rows@[0]@.len() == 0) && !rectangular(rows_view(rows@))
                ==> r == Err::<Grid, GridError>(GridError::RaggedRows),
            r is Ok ==> r->Ok_0@ == rows_view(rows@),
    {
        if rows.len() == 0 || rows[0].len() == 0 {
            return Err(GridError::EmptyImage);
        }
        let width = rows[0].len();
        for y in 0..rows.len()
            invariant
                width == rows@[0]@.len(),
                width >= 1,
                rows@.len() >= 1,
                forall|k: int| 0 <= k < y ==> #[trigger] rows@[k]@.len() == width,
        {
            if rows[y].len() != width {
                proof {
                    let v = rows_view(rows@);
                    assert(v[y as int].len() != v[0].len());
                }
                return Err(GridError::RaggedRows);
            }
        }
        proof {
            let v = rows_view(rows@);
            assert forall|k: int| 0 <= k < v.len() implies #[trigger] v[k].len() == v[0].len() by {
                assert(rows@[k]@.len() == width);
            }
        }
        Ok(Grid { width, rows })
    }

    /// Builds a grid from row-major 8-bit luminance values: a cell is alive
    /// when its luminance is at least the threshold.
    pub fn from_luma(width: usize, height: usize, luma: &Vec<u8>) -> (r: Result<Grid, GridError>)
        ensures
            (width == 0 || height == 0) ==> r == Err::<Grid, GridError>(GridError::EmptyImage),
            (width > 0 && height > 0 && luma@.len() != width * height) ==> r == Err::<
                Grid,
                GridError,
            >(GridError::SizeMismatch),
            (width > 0 && height > 0 && luma@.len() == width * height) ==> {
                &&& r is Ok
                &&& r->Ok_0@.len() == height
                &&& forall|y: int, x: int|
                    0 <= y < height && 0 <= x < width ==> r->Ok_0@[y].len() == width
                        && #[trigger] r->Ok_0@[y][x] == luma_alive(luma@[y * width + x])
            },
    {
        if width == 0 || height == 0 {
            return Err(GridError::EmptyImage);
        }
        if luma.len() / width != height || luma.len() % width != 0 {
            proof {
                if luma@.len() == width * height {
                    assert(luma@.len() / (width as nat) == height) by (nonlinear_arith)
                        requires luma@.len() == width * height, width > 0;
                    assert(luma@.len() % (width as nat) == 0) by (nonlinear_arith)
                        requires luma@.len() == width * height, width > 0;
                }
            }
            return Err(GridError::SizeMismatch);
        }
        proof {
            assert(luma@.len() == width * height) by (nonlinear_arith)
                requires luma@.len() / (width as nat) == height, luma@.len() % (width as nat) == 0, width > 0;
        }
        let mut rows: Vec<Vec<bool>> = Vec::new();
        for y in 0..height
            invariant
                luma@.len() == width * height,
                width > 0,
                rows@.len() == y,
                forall|k: int| 0 <= k < y ==> #[trigger] rows@[k]@.len() == width,
                forall|k: int, x: int|
                    0 <= k < y && 0 <= x < width ==> #[trigger] rows@[k]@[x] == luma_alive(
                        luma@[k * width + x],
                    ),
        {
            let mut row: Vec<bool> = Vec::new();
            for x in 0..width
                invariant
                    luma@.len() == width * height,
                    y < height,
                    width > 0,
                    row@.len() == x,
                    forall|j: int| 0 <= j < x ==> #[trigger] row@[j] == luma_alive(
                        luma@[y * width + j],
                    ),
            {
                assert((y as int) * (width as int) + (x as int) < (width as int) * (height as int))
                    by (nonlinear_arith)
                    requires y < height, x < width;
                assert(luma@.len() == luma.len());
                let i: usize = y * width + x;
                row.push(luma[i] >= ALIVE_THRESHOLD);
            }
            rows.push(row);
        }
        let ghost v = rows_view(rows@);
        assert(v[0].len() == width);
        assert forall|k: int| 0 <= k < v.len() implies #[trigger] v[k].len() == v[0].len() by {
            assert(rows@[k]@.len() == width);
        }
        let g = Grid { width, rows };
        assert forall|y: int, x: int| 0 <= y < height && 0 <= x < width implies g@[y].len() == width
            && #[trigger] g@[y][x] == luma_alive(luma@[y * width + x]) by {
            assert(rows@[y]@[x] == luma_alive(luma@[y * width + x]));
        }
        Ok(g)
    }

    /// Number of cells in each row.
    pub fn width(&self) -> (r: usize)
        ensures
            r == self@[0].len(),
            rectangular(self@),
    {
        proof {
            use_type_invariant(self);
        }
        self.width
    }

    /// Number of rows.
    pub fn height(&self) -> (r: usize)
        ensures
            r == self@.len(),
            rectangular(self@),
    {
        proof {
            use_type_invariant(self);
        }
        self.rows.len()
    }

    /// Whether the cell in column `x` of row `y` is alive.
    pub fn alive(&self, x: usize, y: usize) -> (r: bool)
        requires
            y < self@.len(),
            x < self@[0].len(),
        ensures
            r == self@[y as int][x as int],
    {
        proof {
            use_type_invariant(self);
            assert(self@[y as int].len() == self@[0].len());
        }
        self.rows[y][x]
    }

    /// The rows, top to bottom.
    pub fn rows(&self) -> (r: &Vec<Vec<bool>>)
        ensures
            rows_view(r@) == self@,
    {
        &self.rows
    }
}

} // verus!
