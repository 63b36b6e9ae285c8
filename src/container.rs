//! The measurement array: axis lengths and values in row-major order.
//!
//! Axis convention: axis 0 is the reference channel, axis 1 the repeat index,
//! axis 2 the sweep sample index, and the axes from 3 on are the spatial pixel
//! grid (one or two axes).
use vstd::prelude::*;
use vstd::arithmetic::div_mod::lemma_fundamental_div_mod_converse;
use crate::error::ShapeError;
use crate::medfilt::{median_filtered, medfilt2d};
use crate::param_map::{assembled, outcome_fits, FitOutcome, ParamMap};
use crate::compress::{block_count, lemma_block_count_le, block_group, compressed_shape, group_blocks, new_shape};
use crate::layout::{
    checked_size, flat_index, index_in_bounds, lemma_flat_index_bounds, lemma_size_first_axis_one, lemma_size_split,
    shape_size,
};

verus! {

/// Extents of the pixel grid; a grid with a single spatial axis has one column.
#[derive(Debug, Clone, Copy, PartialEq, Eq, Structural)]
pub struct GridExtents {
    pub rows: usize,
    pub cols: usize,
}

/// Whether an array of this shape can be fitted pixel by pixel: one or two
/// spatial axes, and index 0 present on the reference and repeat axes.
pub open spec fn fittable(shape: Seq<usize>) -> bool {
    &&& shape.len() == 4 || shape.len() == 5
    &&& shape[0] >= 1
    &&& shape[1] >= 1
}

/// The pixel grid of a fittable shape.
pub open spec fn grid_of(shape: Seq<usize>) -> GridExtents {
    GridExtents { rows: shape[3], cols: if shape.len() == 5 { shape[4] } else { 1 } }
}

/// The error reported for a shape that cannot be fitted.
pub open spec fn grid_error(shape: Seq<usize>) -> ShapeError {
    if shape.len() != 4 && shape.len() != 5 {
        ShapeError::UnsupportedRank { ndim: shape.len() as usize }
    } else if shape[0] == 0 {
        ShapeError::EmptyAxis { axis: 0 }
    } else {
        ShapeError::EmptyAxis { axis: 1 }
    }
}

/// Multi-index of sample `k` of the sweep at pixel (`row`, `col`): index 0 on
/// the reference and repeat axes.
pub open spec fn sweep_index(shape: Seq<usize>, k: int, row: int, col: int) -> Seq<int> {
    if shape.len() == 5 {
        seq![0, 0, k, row, col]
    } else {
        seq![0, 0, k, row]
    }
}

/// The sweep of pixel (`row`, `col`): the values along axis 2.
pub open spec fn sweep_of<T>(shape: Seq<usize>, values: Seq<T>, row: int, col: int) -> Seq<T> {
    Seq::new(shape[2] as nat, |k: int| values[flat_index(shape, sweep_index(shape, k, row, col))])
}

/// A pixel's sweep depends only on the values at that pixel: two arrays of
/// the same shape that agree on them give the same sweep there.
pub proof fn lemma_sweep_local<T>(
    shape: Seq<usize>,
    values: Seq<T>,
    others: Seq<T>,
    row: int,
    col: int,
)
    requires
        forall|k: int|
            0 <= k < shape[2] ==> values[flat_index(shape, sweep_index(shape, k, row, col))]
                == #[trigger] others[flat_index(shape, sweep_index(shape, k, row, col))],
    ensures
        sweep_of(shape, values, row, col) == sweep_of(shape, others, row, col),
{
    assert(sweep_of(shape, values, row, col) =~= sweep_of(shape, others, row, col));
}

/// Where sample `k` of a pixel's sweep lies in the flat storage.
pub proof fn lemma_sweep_offset(shape: Seq<usize>, k: int, row: int, col: int)
    requires
        fittable(shape),
        0 <= k < shape[2],
        0 <= row < grid_of(shape).rows,
        0 <= col < grid_of(shape).cols,
    ensures
        index_in_bounds(shape, sweep_index(shape, k, row, col)),
        flat_index(shape, sweep_index(shape, k, row, col)) == (k * shape[3] + row) * grid_of(
            shape,
        ).cols + col,
        0 <= flat_index(shape, sweep_index(shape, k, row, col)) < shape_size(shape),
{
    let idx = sweep_index(shape, k, row, col);
    assert(idx.len() == shape.len() && idx[0] == 0 && idx[1] == 0 && idx[2] == k && idx[3] == row);
    let d0 = shape[0] as int;
    let d1 = shape[1] as int;
    let d2 = shape[2] as int;
    let d3 = shape[3] as int;
    let s1 = shape.take(1);
    let s2 = shape.take(2);
    let s3 = shape.take(3);
    let s4 = shape.take(4);
    let i1 = idx.take(1);
    let i2 = idx.take(2);
    let i3 = idx.take(3);
    let i4 = idx.take(4);
    assert(s1.drop_last() =~= shape.take(0) && i1.drop_last() =~= idx.take(0));
    assert(s2.drop_last() =~= s1 && i2.drop_last() =~= i1);
    assert(s3.drop_last() =~= s2 && i3.drop_last() =~= i2);
    assert(flat_index(shape.take(0), idx.take(0)) == 0);
    assert(flat_index(s1, i1) == 0 * d0 + 0);
    assert(0 * d0 == 0 && 0 * d1 == 0) by (nonlinear_arith);
    assert(flat_index(s2, i2) == 0 * d1 + 0);
    assert(flat_index(s3, i3) == 0 * d2 + k);
    assert(0 * d2 == 0) by (nonlinear_arith);
    if shape.len() == 5 {
        assert(idx[4] == col);
        assert(s4.drop_last() =~= s3 && i4.drop_last() =~= i3);
        assert(shape.drop_last() =~= s4 && idx.drop_last() =~= i4);
        assert(flat_index(s4, i4) == k * d3 + row);
    } else {
        assert(shape.drop_last() =~= s3 && idx.drop_last() =~= i3);
        assert(flat_index(shape, idx) == k * d3 + row);
        assert((k * d3 + row) * 1 + 0 == k * d3 + row);
    }
    assert(index_in_bounds(shape, idx));
    lemma_flat_index_bounds(shape, idx);
}

/// The axis lengths with the first one set to 1.
fn single_first_axis(shape: &Vec<usize>) -> (r: Vec<usize>)
    requires
        shape@.len() >= 1,
    ensures
        r@ == shape@.update(0, 1),
{
    let mut r: Vec<usize> = Vec::new();
    r.push(1);
    let mut a: usize = 1;
    while a < shape.len()
        invariant
            1 <= a <= shape.len(),
            r@ =~= shape@.update(0, 1).take(a as int),
        decreases shape.len() - a,
    {
        r.push(shape[a]);
        a += 1;
    }
    r
}

/// A product within `usize` whose first factor exceeds it has a zero factor.
proof fn lemma_small_product(a: int, b: int, c: int)
    requires
        a > usize::MAX,
        0 <= b,
        0 <= c,
        a * b * c <= usize::MAX,
    ensures
        b == 0 || c == 0,
{
    if b != 0 && c != 0 {
        assert(a * b * c >= a) by (nonlinear_arith)
            requires
                a > 0,
                b >= 1,
                c >= 1,
        ;
    }
}

/// A measurement array. Its invariant: there is one value for each element of the shape.
pub struct DataContainer<T> {
    shape: Vec<usize>,
    values: Vec<T>,
}

impl<T> DataContainer<T> {
    #[verifier::type_invariant]
    closed spec fn well_formed(self) -> bool {
        self.values@.len() == shape_size(self.shape@)
    }

    /// Axis lengths.
    pub closed spec fn spec_shape(&self) -> Seq<usize> {
        self.shape@
    }

    /// Values in row-major order.
    pub closed spec fn spec_values(&self) -> Seq<T> {
        self.values@
    }

    /// Builds an array from its axis lengths and its values in row-major order;
    /// refused where the number of values is not the product of the lengths.
    pub fn from_parts(shape: Vec<usize>, values: Vec<T>) -> (r: Result<Self, ShapeError>)
        ensures
            r is Ok <==> values@.len() == shape_size(shape@),
            match r {
                Ok(c) => c.spec_shape() == shape@ && c.spec_values() == values@,
                Err(e) => e == (ShapeError::LengthMismatch { values: values.len() }),
            },
    {
        match checked_size(&shape) {
            Some(n) => {
                if n == values.len() {
                    return Ok(DataContainer { shape, values });
                }
            },
            None => {},
        }
        Err(ShapeError::LengthMismatch { values: values.len() })
    }

    /// The axis lengths.
    pub fn shape(&self) -> (r: &Vec<usize>)
        ensures
            r@ == self.spec_shape(),
    {
        &self.shape
    }

    /// The values in row-major order.
    pub fn values(&self) -> (r: &Vec<T>)
        ensures
            r@ == self.spec_values(),
            r@.len() == shape_size(self.spec_shape()),
    {
        proof {
            use_type_invariant(&*self);
        }
        &self.values
    }

    /// Gives back the axis lengths and the values.
    pub fn into_parts(self) -> (r: (Vec<usize>, Vec<T>))
        ensures
            r.0@ == self.spec_shape(),
            r.1@ == self.spec_values(),
            r.1@.len() == shape_size(r.0@),
    {
        proof {
            use_type_invariant(&self);
        }
        (self.shape, self.values)
    }

    /// The pixel grid that a fit runs over, or the reason why there is none.
    pub fn grid_extents(&self) -> (r: Result<GridExtents, ShapeError>)
        ensures
            r is Ok <==> fittable(self.spec_shape()),
            match r {
                Ok(g) => g == grid_of(self.spec_shape()),
                Err(e) => e == grid_error(self.spec_shape()),
            },
    {
        let n = self.shape.len();
        if n != 4 && n != 5 {
            return Err(ShapeError::UnsupportedRank { ndim: n });
        }
        if self.shape[0] == 0 {
            return Err(ShapeError::EmptyAxis { axis: 0 });
        }
        if self.shape[1] == 0 {
            return Err(ShapeError::EmptyAxis { axis: 1 });
        }
        let cols = if n == 5 {
            self.shape[4]
        } else {
            1
        };
        Ok(GridExtents { rows: self.shape[3], cols })
    }
}

impl<T: Copy> DataContainer<T> {
    /// The sweep of pixel (`row`, `col`): the values along the sweep axis at
    /// index 0 of the reference and repeat axes.
    pub fn sweep(&self, row: usize, col: usize) -> (r: Vec<T>)
        requires
            fittable(self.spec_shape()),
            row < grid_of(self.spec_shape()).rows,
            col < grid_of(self.spec_shape()).cols,
        ensures
            r@ == sweep_of(self.spec_shape(), self.spec_values(), row as int, col as int),
    {
        proof {
            use_type_invariant(&*self);
        }
        let ghost shape = self.shape@;
        let len = self.values.len();
        let n = self.shape[2];
        let d3 = self.shape[3];
        let cols = if self.shape.len() == 5 {
            self.shape[4]
        } else {
            1
        };
        let mut out: Vec<T> = Vec::new();
        let mut k: usize = 0;
        while k < n
            invariant
                shape == self.shape@,
                self.values@.len() == shape_size(shape),
                len == self.values@.len(),
                fittable(shape),
                row < grid_of(shape).rows,
                col < grid_of(shape).cols,
                n == shape[2],
                d3 == shape[3],
                cols == grid_of(shape).cols,
                k <= n,
                out@ =~= sweep_of(shape, self.values@, row as int, col as int).take(k as int),
            decreases n - k,
        {
            proof {
                lemma_sweep_offset(shape, k as int, row as int, col as int);
                let base = k * d3 + row;
                assert(base * cols + col < self.values@.len());
                assert(k * d3 <= base);
                assert(base <= base * cols) by (nonlinear_arith)
                    requires
                        cols >= 1,
                        base >= 0,
                ;
            }
            let pos = (k * d3 + row) * cols + col;
            out.push(self.values[pos]);
            k += 1;
        }
        out
    }

    /// The sweeps of all pixels, row-major over the grid: entry `p` is the
    /// sweep of pixel (`p / cols`, `p % cols`).
    pub fn sweeps(&self) -> (r: Result<Vec<Vec<T>>, ShapeError>)
        ensures
            r is Ok <==> fittable(self.spec_shape()),
            match r {
                Ok(all) => {
                    let g = grid_of(self.spec_shape());
                    &&& all@.len() == g.rows * g.cols
                    &&& forall|p: int|
                        0 <= p < all@.len() ==> (#[trigger] all@[p])@ == sweep_of(
                            self.spec_shape(),
                            self.spec_values(),
                            p / (g.cols as int),
                            p % (g.cols as int),
                        )
                },
                Err(e) => e == grid_error(self.spec_shape()),
            },
    {
        let g = match self.grid_extents() {
            Ok(g) => g,
            Err(e) => return Err(e),
        };
        let ghost shape = self.spec_shape();
        let ghost values = self.spec_values();
        let ghost cols = g.cols as int;
        let mut all: Vec<Vec<T>> = Vec::new();
        let mut row: usize = 0;
        while row < g.rows
            invariant
                g == grid_of(shape),
                shape == self.spec_shape(),
                values == self.spec_values(),
                fittable(shape),
                cols == g.cols,
                row <= g.rows,
                all@.len() == row * cols,
                forall|p: int|
                    0 <= p < all@.len() ==> (#[trigger] all@[p])@ == sweep_of(
                        shape,
                        values,
                        p / cols,
                        p % cols,
                    ),
            decreases g.rows - row,
        {
            let mut col: usize = 0;
            while col < g.cols
                invariant
                    g == grid_of(shape),
                    shape == self.spec_shape(),
                    values == self.spec_values(),
                    fittable(shape),
                    cols == g.cols,
                    row < g.rows,
                    col <= g.cols,
                    all@.len() == row * cols + col,
                    forall|p: int|
                        0 <= p < all@.len() ==> (#[trigger] all@[p])@ == sweep_of(
                            shape,
                            values,
                            p / cols,
                            p % cols,
                        ),
                decreases g.cols - col,
            {
                let s = self.sweep(row, col);
                proof {
                    lemma_fundamental_div_mod_converse(
                        row * cols + col,
                        cols,
                        row as int,
                        col as int,
                    );
                }
                all.push(s);
                col += 1;
            }
            proof {
                assert(row * cols + cols == (row + 1) * cols) by (nonlinear_arith);
            }
            row += 1;
        }
        Ok(all)
    }

    /// The parameter map of the grid from the outcomes of its pixels' fits,
    /// given row-major as `sweeps` lists the pixels: an array of shape
    /// (rows, cols, params) in which a failed pixel holds `params` zeros.
    pub fn assemble_fits(&self, params: usize, outcomes: &Vec<FitOutcome<T>>, zero: T) -> (r:
        Result<ParamMap<T>, ShapeError>)
        requires
            forall|p: int| 0 <= p < outcomes@.len() ==> outcome_fits(#[trigger] outcomes@[p], params as nat),
        ensures
            ({
                let g = grid_of(self.spec_shape());
                r is Ok <==> fittable(self.spec_shape()) && outcomes@.len() == g.rows * g.cols
                    && g.rows * g.cols * params <= usize::MAX
            }),
            match r {
                Ok(m) => {
                    let g = grid_of(self.spec_shape());
                    &&& m.spec_rows() == g.rows
                    &&& m.spec_cols() == g.cols
                    &&& m.spec_params() == params
                    &&& m@ == assembled(outcomes@, params as nat, zero)
                },
                Err(e) => if !fittable(self.spec_shape()) {
                    e == grid_error(self.spec_shape())
                } else if outcomes@.len() != grid_of(self.spec_shape()).rows * grid_of(
                    self.spec_shape(),
                ).cols {
                    e == (ShapeError::OutcomeCount { found: outcomes.len() })
                } else {
                    e == ShapeError::MapTooLarge
                },
            },
    {
        let g = match self.grid_extents() {
            Ok(g) => g,
            Err(e) => return Err(e),
        };
        let n = outcomes.len();
        let pixels = match g.rows.checked_mul(g.cols) {
            Some(k) => k,
            None => return Err(ShapeError::OutcomeCount { found: n }),
        };
        if pixels != n {
            return Err(ShapeError::OutcomeCount { found: n });
        }
        match pixels.checked_mul(params) {
            Some(_) => {},
            None => return Err(ShapeError::MapTooLarge),
        }
        Ok(ParamMap::assemble(g.rows, g.cols, params, outcomes, zero))
    }

    /// Block-wise grouping of the spatial axes for downsampling by `step`:
    /// output pixel (`bi`, `bj`) at each position of the leading three axes
    /// gathers the input values of rows `step * bi ..` and columns
    /// `step * bj ..` of the grid, a block at the end of an axis covering what
    /// remains. A grid with one spatial axis is grouped along that axis.
    pub fn block_groups(&self, step: usize) -> (r: Result<DataContainer<Vec<T>>, ShapeError>)
        requires
            step > 0,
        ensures
            r is Ok <==> (self.spec_shape().len() == 4 || self.spec_shape().len() == 5),
            match r {
                Ok(c) => {
                    let g = grid_of(self.spec_shape());
                    let nx = block_count(g.rows as nat, step as nat);
                    let ny = block_count(g.cols as nat, step as nat);
                    &&& c.spec_shape() == compressed_shape(self.spec_shape(), step as nat)
                    &&& forall|o: int|
                        0 <= o < c.spec_values().len() ==> (#[trigger] c.spec_values()[o])@
                            == block_group(
                            self.spec_values(),
                            g.rows as nat,
                            g.cols as nat,
                            step as nat,
                            o / (nx * ny) as int,
                            (o / ny as int) % nx as int,
                            o % ny as int,
                        )
                },
                Err(e) => e == (ShapeError::UnsupportedRank { ndim: self.spec_shape().len() as usize }),
            },
    {
        proof {
            use_type_invariant(&*self);
        }
        let n = self.shape.len();
        if n != 4 && n != 5 {
            return Err(ShapeError::UnsupportedRank { ndim: n });
        }
        let ghost shape = self.shape@;
        let len = self.values.len();
        let gx = self.shape[3];
        let gy = if n == 5 {
            self.shape[4]
        } else {
            1
        };
        let prefix = vec![self.shape[0], self.shape[1], self.shape[2]];
        proof {
            assert(prefix@ =~= shape.take(3));
            lemma_size_split(shape);
        }
        let lead = match checked_size(&prefix) {
            Some(k) => k,
            None => 0,
        };
        proof {
            let full = shape_size(shape.take(3));
            if n == 4 {
                assert(full * gx * 1 == full * gx) by (nonlinear_arith);
            }
            assert(shape_size(shape) == full * gx * gy);
            if lead != full {
                assert(full * gx * gy <= usize::MAX);
                lemma_small_product(full as int, gx as int, gy as int);
                assert(lead * gx * gy == 0) by (nonlinear_arith)
                    requires
                        lead == 0,
                ;
                assert(full * gx * gy == 0) by (nonlinear_arith)
                    requires
                        gx == 0 || gy == 0,
                ;
            }
        }
        let groups = group_blocks(&self.values, lead, gx, gy, step);
        let new = new_shape(&self.shape, step);
        proof {
            let cs = compressed_shape(shape, step as nat);
            let nx = block_count(gx as nat, step as nat);
            let ny = block_count(gy as nat, step as nat);
            let full = shape_size(shape.take(3));
            lemma_block_count_le(gx as nat, step as nat);
            lemma_block_count_le(gy as nat, step as nat);
            assert(cs.take(3) =~= shape.take(3));
            lemma_size_split(cs);
            if n == 4 {
                assert(ny == 1) by {
                    if step == 1 {
                        assert(1nat / 1nat == 1 && 1nat % 1nat == 0);
                    } else {
                        assert(1nat / (step as nat) == 0 && 1nat % (step as nat) == 1) by (
                        nonlinear_arith)
                            requires
                                step > 1,
                        ;
                    }
                }
                assert(full * nx * 1 == full * nx) by (nonlinear_arith);
            }
            if lead != full {
                lemma_small_product(full as int, gx as int, gy as int);
                assert(nx * ny == 0) by {
                    if gx == 0 {
                        assert(nx == 0);
                    } else {
                        assert(gy == 0);
                        assert(ny == 0);
                    }
                }
                assert(full * nx * ny == 0) by (nonlinear_arith)
                    requires
                        nx * ny == 0,
                {
                    assert(full * nx * ny == full * (nx * ny));
                }
                assert(lead * nx * ny == 0) by (nonlinear_arith)
                    requires
                        lead == 0,
                ;
            }
            assert(groups@.len() == shape_size(cs));
        }
        Ok(DataContainer { shape: new, values: groups })
    }

    /// The two reference channels, index 0 and index 1 of axis 0, each as an
    /// array whose axis 0 has length 1; refused unless axis 0 has length 2.
    pub fn reference_channels(&self) -> (r: Result<(DataContainer<T>, DataContainer<T>), ShapeError>)
        ensures
            r is Ok <==> self.spec_shape().len() >= 1 && self.spec_shape()[0] == 2,
            match r {
                Ok((first, second)) => {
                    let half = shape_size(self.spec_shape().skip(1)) as int;
                    &&& first.spec_shape() == self.spec_shape().update(0, 1)
                    &&& second.spec_shape() == self.spec_shape().update(0, 1)
                    &&& first.spec_values() == self.spec_values().take(half)
                    &&& second.spec_values() == self.spec_values().skip(half)
                },
                Err(e) => if self.spec_shape().len() == 0 {
                    e == (ShapeError::UnsupportedRank { ndim: 0 })
                } else {
                    e == (ShapeError::ReferenceChannels { found: self.spec_shape()[0] })
                },
            },
    {
        proof {
            use_type_invariant(&*self);
        }
        if self.shape.len() == 0 {
            return Err(ShapeError::UnsupportedRank { ndim: 0 });
        }
        if self.shape[0] != 2 {
            return Err(ShapeError::ReferenceChannels { found: self.shape[0] });
        }
        let ghost shape = self.shape@;
        let ghost values = self.values@;
        proof {
            lemma_size_first_axis_one(shape);
        }
        let n = self.values.len();
        let half = n / 2;
        let mut first: Vec<T> = Vec::new();
        let mut second: Vec<T> = Vec::new();
        let mut i: usize = 0;
        while i < half
            invariant
                values == self.values@,
                n == values.len(),
                half + half == n,
                i <= half,
                first@ =~= values.take(i as int),
                second@ =~= values.skip(half as int).take(i as int),
            decreases half - i,
        {
            first.push(self.values[i]);
            second.push(self.values[half + i]);
            i += 1;
        }
        proof {
            assert(first@ =~= values.take(half as int));
            assert(second@ =~= values.skip(half as int));
        }
        let a = DataContainer { shape: single_first_axis(&self.shape), values: first };
        let b = DataContainer { shape: single_first_axis(&self.shape), values: second };
        Ok((a, b))
    }
}

/// Frame `z` of a 5-axis array: the image at index 0 of the reference and
/// repeat axes and index `z` of the sweep axis, row-major over the grid.
pub open spec fn frame_of<T>(shape: Seq<usize>, values: Seq<T>, z: int) -> Seq<T> {
    Seq::new(
        (shape[3] * shape[4]) as nat,
        |p: int| values[flat_index(shape, sweep_index(shape, z, p / (shape[4] as int), p % (shape[4] as int)))],
    )
}

impl DataContainer<u64> {
    /// Median-filters each frame of a 5-axis array with a square window of
    /// side `kernel_size`: the result has shape (sweep, rows, cols).
    pub fn medfilt_array(&self, kernel_size: usize) -> (r: Result<DataContainer<u64>, ShapeError>)
        requires
            kernel_size >= 1,
        ensures
            r is Ok <==> self.spec_shape().len() == 5 && fittable(self.spec_shape()),
            match r {
                Ok(c) => {
                    let shape = self.spec_shape();
                    let g = shape[3] * shape[4];
                    &&& c.spec_shape() == seq![shape[2], shape[3], shape[4]]
                    &&& forall|z: int|
                        0 <= z < shape[2] ==> #[trigger] c.spec_values().subrange(z * g, z * g + g)
                            == median_filtered(
                            frame_of(shape, self.spec_values(), z),
                            shape[3] as int,
                            shape[4] as int,
                            kernel_size as int,
                        )
                },
                Err(e) => if self.spec_shape().len() != 5 {
                    e == (ShapeError::UnsupportedRank { ndim: self.spec_shape().len() as usize })
                } else {
                    e == grid_error(self.spec_shape())
                },
            },
    {
        proof {
            use_type_invariant(&*self);
        }
        if self.shape.len() != 5 {
            return Err(ShapeError::UnsupportedRank { ndim: self.shape.len() });
        }
        match self.grid_extents() {
            Ok(_) => {},
            Err(e) => return Err(e),
        }
        let ghost shape = self.shape@;
        let ghost values = self.values@;
        let len = self.values.len();
        let d2 = self.shape[2];
        let d3 = self.shape[3];
        let d4 = self.shape[4];
        let mut out: Vec<u64> = Vec::new();
        let mut z: usize = 0;
        while z < d2
            invariant
                shape == self.shape@,
                values == self.values@,
                len == values.len(),
                len == shape_size(shape),
                shape.len() == 5,
                fittable(shape),
                kernel_size >= 1,
                d2 == shape[2],
                d3 == shape[3],
                d4 == shape[4],
                z <= d2,
                out@.len() == z * (d3 * d4),
                forall|y: int|
                    0 <= y < z ==> #[trigger] out@.subrange(y * (d3 * d4), y * (d3 * d4) + d3 * d4)
                        == median_filtered(
                        frame_of(shape, values, y),
                        d3 as int,
                        d4 as int,
                        kernel_size as int,
                    ),
            decreases d2 - z,
        {
            let ghost g = d3 * d4;
            let mut frame: Vec<u64> = Vec::new();
            let mut i: usize = 0;
            while i < d3
                invariant
                    shape == self.shape@,
                    values == self.values@,
                    len == values.len(),
                    len == shape_size(shape),
                    shape.len() == 5,
                    fittable(shape),
                    d3 == shape[3],
                    d4 == shape[4],
                    z < shape[2],
                    i <= d3,
                    frame@.len() == i * d4,
                    forall|p: int|
                        0 <= p < frame@.len() ==> #[trigger] frame@[p] == frame_of(shape, values, z as int)[p],
                decreases d3 - i,
            {
                let mut j: usize = 0;
                while j < d4
                    invariant
                        shape == self.shape@,
                        values == self.values@,
                        len == values.len(),
                        len == shape_size(shape),
                        shape.len() == 5,
                        fittable(shape),
                        d3 == shape[3],
                        d4 == shape[4],
                        z < shape[2],
                        i < d3,
                        j <= d4,
                        frame@.len() == i * d4 + j,
                        forall|p: int|
                            0 <= p < frame@.len() ==> #[trigger] frame@[p] == frame_of(shape, values, z as int)[p],
                    decreases d4 - j,
                {
                    proof {
                        lemma_sweep_offset(shape, z as int, i as int, j as int);
                        let base = z * d3 + i;
                        assert(z * d3 <= base);
                        assert(base <= base * d4) by (nonlinear_arith)
                            requires
                                d4 >= 1,
                                base >= 0,
                        ;
                        lemma_fundamental_div_mod_converse(i * d4 + j, d4 as int, i as int, j as int);
                        assert(i * d4 + j < d3 * d4) by (nonlinear_arith)
                            requires
                                i < d3,
                                j < d4,
                        {
                            assert(i * d4 <= (d3 - 1) * d4);
                        }
                    }
                    frame.push(self.values[(z * d3 + i) * d4 + j]);
                    j += 1;
                }
                proof {
                    assert(i * d4 + d4 == (i + 1) * d4) by (nonlinear_arith);
                }
                i += 1;
            }
            proof {
                assert(frame@ =~= frame_of(shape, values, z as int));
            }
            let mut filtered = medfilt2d(&frame, d3, d4, kernel_size);
            let ghost before = out@;
            out.append(&mut filtered);
            proof {
                assert(z * g + g == (z + 1) * g) by (nonlinear_arith);
                assert forall|y: int| 0 <= y < z + 1 implies #[trigger] out@.subrange(y * g, y * g + g)
                    == median_filtered(frame_of(shape, values, y), d3 as int, d4 as int, kernel_size as int) by {
                    if y < z {
                        assert(y * g + g <= z * g) by (nonlinear_arith)
                            requires
                                y < z,
                                g >= 0,
                        ;
                        assert(0 <= y * g) by (nonlinear_arith)
                            requires
                                0 <= y,
                                g >= 0,
                        ;
                        assert(out@.subrange(y * g, y * g + g) =~= before.subrange(y * g, y * g + g));
                    } else {
                        assert(out@.subrange(y * g, y * g + g) =~= median_filtered(
                            frame_of(shape, values, y),
                            d3 as int,
                            d4 as int,
                            kernel_size as int,
                        ));
                    }
                }
            }
            z += 1;
        }
        let new_shape = vec![d2, d3, d4];
        proof {
            let ns = new_shape@;
            assert(ns.drop_last().drop_last().drop_last() =~= Seq::<usize>::empty());
            assert(shape_size(ns.drop_last().drop_last().drop_last()) == 1);
            assert(shape_size(ns.drop_last().drop_last()) == 1 * d2);
            assert(shape_size(ns.drop_last()) == d2 * d3);
            assert(shape_size(ns) == d2 * d3 * d4);
            assert(d2 * (d3 * d4) == d2 * d3 * d4) by (nonlinear_arith);
            assert(new_shape@ =~= seq![shape[2], shape[3], shape[4]]);
        }
        Ok(DataContainer { shape: new_shape, values: out })
    }
}

/// The sweeps of an array of shape (`xdim`, `ydim`, `n`) whose last axis is
/// the sweep: entry `p` is the sweep of pixel (`p / ydim`, `p % ydim`), the
/// `n` values that follow position `p * n`.
pub fn pixel_major_sweeps<T: Copy>(values: &Vec<T>, xdim: usize, ydim: usize, n: usize) -> (r: Vec<
    Vec<T>,
>)
    requires
        values@.len() == xdim * ydim * n,
        xdim * ydim <= usize::MAX,
    ensures
        r@.len() == xdim * ydim,
        forall|p: int|
            0 <= p < r@.len() ==> (#[trigger] r@[p])@ == values@.subrange(p * n, p * n + n),
{
    let len = values.len();
    let mut all: Vec<Vec<T>> = Vec::new();
    let mut i: usize = 0;
    while i < xdim
        invariant
            len == values@.len(),
            len == xdim * ydim * n,
            xdim * ydim <= usize::MAX,
            i <= xdim,
            all@.len() == i * ydim,
            forall|p: int|
                0 <= p < all@.len() ==> (#[trigger] all@[p])@ == values@.subrange(p * n, p * n + n),
        decreases xdim - i,
    {
        let mut j: usize = 0;
        while j < ydim
            invariant
                len == values@.len(),
                len == xdim * ydim * n,
                xdim * ydim <= usize::MAX,
                i < xdim,
                j <= ydim,
                all@.len() == i * ydim + j,
                forall|p: int|
                    0 <= p < all@.len() ==> (#[trigger] all@[p])@ == values@.subrange(
                        p * n,
                        p * n + n,
                    ),
            decreases ydim - j,
        {
            let ghost p = i * ydim + j;
            proof {
                assert(i * ydim + j < xdim * ydim) by (nonlinear_arith)
                    requires
                        i < xdim,
                        j < ydim,
                {
                    assert(i * ydim <= (xdim - 1) * ydim);
                }
                assert(0 <= p * n && p * n + n <= xdim * ydim * n) by (nonlinear_arith)
                    requires
                        p == i * ydim + j,
                        i < xdim,
                        j < ydim,
                {
                    assert(i * ydim + j + 1 <= xdim * ydim) by {
                        assert(i * ydim <= (xdim - 1) * ydim);
                    }
                    assert((p + 1) * n <= (xdim * ydim) * n);
                }
            }
            let start = (i * ydim + j) * n;
            let mut sweep: Vec<T> = Vec::new();
            let mut k: usize = 0;
            while k < n
                invariant
                    len == values@.len(),
                    start == p * n,
                    start + n <= len,
                    k <= n,
                    sweep@ =~= values@.subrange(start as int, start + k),
                decreases n - k,
            {
                sweep.push(values[start + k]);
                k += 1;
            }
            all.push(sweep);
            j += 1;
        }
        proof {
            assert(i * ydim + ydim == (i + 1) * ydim) by (nonlinear_arith);
        }
        i += 1;
    }
    all
}

} // verus!
