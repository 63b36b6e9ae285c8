//! Block-wise downsampling of the spatial axes: each output pixel gathers the
//! input values of a `step` × `step` block (a `step` run on a single spatial
//! axis), the last block of an axis covering what remains.
use vstd::prelude::*;
use vstd::arithmetic::div_mod::{
    lemma_fundamental_div_mod, lemma_fundamental_div_mod_converse, lemma_mod_pos_bound,
};

verus! {

/// Number of blocks of length `step` needed to cover `n` samples: ceil(n / step).
pub open spec fn block_count(n: nat, step: nat) -> nat
    recommends
        step > 0,
{
    n / step + if n % step == 0 {
        0nat
    } else {
        1nat
    }
}

/// First sample of block `b`.
pub open spec fn block_start(b: int, step: nat) -> int {
    step * b
}

/// One past the last sample of block `b` on an axis of `n` samples.
pub open spec fn block_end(b: int, step: nat, n: nat) -> int {
    if step * b + step <= n {
        step * b + step
    } else {
        n as int
    }
}

/// The shape after downsampling: the first three axes are kept, each spatial
/// axis shrinks to the number of blocks that cover it.
pub open spec fn compressed_shape(shape: Seq<usize>, step: nat) -> Seq<usize> {
    Seq::new(
        shape.len(),
        |a: int|
            if a < 3 {
                shape[a]
            } else {
                block_count(shape[a] as nat, step) as usize
            },
    )
}

/// The values that block (`bi`, `bj`) gathers at leading position `l` (the
/// row-major position over axes 0 to 2), from an array whose spatial grid is
/// `gx` × `gy`; row by row within the block.
pub open spec fn block_group<T>(
    values: Seq<T>,
    gx: nat,
    gy: nat,
    step: nat,
    l: int,
    bi: int,
    bj: int,
) -> Seq<T> {
    let i0 = block_start(bi, step);
    let j0 = block_start(bj, step);
    let h = block_end(bi, step, gx) - i0;
    let w = block_end(bj, step, gy) - j0;
    Seq::new((h * w) as nat, |k: int| values[l * (gx * gy) + (i0 + k / w) * gy + j0 + k % w])
}

/// No more blocks than samples.
pub proof fn lemma_block_count_le(n: nat, step: nat)
    requires
        step > 0,
    ensures
        block_count(n, step) <= n,
{
    let q = (n / step) as int;
    let r = (n % step) as int;
    lemma_fundamental_div_mod(n as int, step as int);
    lemma_mod_pos_bound(n as int, step as int);
    assert(q <= step * q) by (nonlinear_arith)
        requires
            step > 0,
            q >= 0,
    ;
}

/// The number of blocks, computed without overflow.
pub fn count_blocks(n: usize, step: usize) -> (r: usize)
    requires
        step > 0,
    ensures
        r == block_count(n as nat, step as nat),
        r <= n,
{
    proof {
        lemma_block_count_le(n as nat, step as nat);
    }
    n / step + if n % step == 0 {
        0
    } else {
        1
    }
}

proof fn lemma_block_in_range(b: int, step: nat, n: nat)
    requires
        step > 0,
        0 <= b < block_count(n, step),
    ensures
        0 <= block_start(b, step) < block_end(b, step, n) <= n,
{
    let q = n / step;
    let r = n % step;
    assert(n == step * q + r && 0 <= r < step) by (nonlinear_arith)
        requires
            step > 0,
            q == n / step,
            r == n % step,
    ;
    assert(step * b < n) by (nonlinear_arith)
        requires
            step > 0,
            0 <= b,
            (r == 0 && b < q) || (r != 0 && b <= q),
            n == step * q + r,
            0 <= r < step,
    ;
    assert(0 <= step * b) by (nonlinear_arith)
        requires
            step > 0,
            0 <= b,
    ;
}

/// The new axis lengths for downsampling by `step`.
pub fn new_shape(shape: &Vec<usize>, step: usize) -> (r: Vec<usize>)
    requires
        step > 0,
    ensures
        r@ == compressed_shape(shape@, step as nat),
{
    let mut r: Vec<usize> = Vec::new();
    let mut a: usize = 0;
    while a < shape.len()
        invariant
            step > 0,
            a <= shape.len(),
            r@ =~= compressed_shape(shape@, step as nat).take(a as int),
        decreases shape.len() - a,
    {
        if a < 3 {
            r.push(shape[a]);
        } else {
            r.push(count_blocks(shape[a], step));
        }
        a += 1;
    }
    r
}

proof fn lemma_inside_grid(l: int, i: int, j: int, lead: int, gx: int, gy: int)
    requires
        0 <= l < lead,
        0 <= i < gx,
        0 <= j < gy,
    ensures
        0 <= i * gy + j < gx * gy,
        0 <= l * (gx * gy) + i * gy + j < lead * gx * gy,
        gx * gy <= lead * gx * gy,
        0 <= l * (gx * gy),
{
    assert(0 <= i * gy + j < gx * gy) by (nonlinear_arith)
        requires
            0 <= i < gx,
            0 <= j < gy,
    {
        assert(i * gy <= (gx - 1) * gy);
    }
    let g = gx * gy;
    assert(0 <= l * g && l * g + g <= lead * g && g <= lead * g) by (nonlinear_arith)
        requires
            0 <= l < lead,
            g > 0,
    ;
    assert(lead * g == lead * gx * gy) by (nonlinear_arith)
        requires
            g == gx * gy,
    ;
}

/// The values gathered by block (`bi`, `bj`) at leading position `l`.
fn gather_block<T: Copy>(
    values: &Vec<T>,
    lead: usize,
    gx: usize,
    gy: usize,
    step: usize,
    l: usize,
    bi: usize,
    bj: usize,
) -> (r: Vec<T>)
    requires
        step > 0,
        values@.len() == lead * gx * gy,
        l < lead,
        bi < block_count(gx as nat, step as nat),
        bj < block_count(gy as nat, step as nat),
    ensures
        r@ == block_group(values@, gx as nat, gy as nat, step as nat, l as int, bi as int, bj as int),
{
    proof {
        lemma_block_in_range(bi as int, step as nat, gx as nat);
        lemma_block_in_range(bj as int, step as nat, gy as nat);
        lemma_inside_grid(l as int, 0, 0, lead as int, gx as int, gy as int);
    }
    let len = values.len();
    let i0 = step * bi;
    let i1 = if gx - i0 >= step {
        i0 + step
    } else {
        gx
    };
    let j0 = step * bj;
    let j1 = if gy - j0 >= step {
        j0 + step
    } else {
        gy
    };
    let g = gx * gy;
    let base = l * g;
    let ghost w = (j1 - j0) as int;
    let mut out: Vec<T> = Vec::new();
    let mut i = i0;
    while i < i1
        invariant
            len == values@.len(),
            len == lead * gx * gy,
            l < lead,
            i0 <= i <= i1 <= gx,
            j0 < j1 <= gy,
            w == j1 - j0,
            g == gx * gy,
            base == l * g,
            out@.len() == (i - i0) * w,
            forall|k: int|
                0 <= k < out@.len() ==> #[trigger] out@[k] == values@[base + (i0 + k / w) * gy + j0
                    + k % w],
        decreases i1 - i,
    {
        let mut j = j0;
        while j < j1
            invariant
                len == values@.len(),
                len == lead * gx * gy,
                l < lead,
                i0 <= i < i1 <= gx,
                j0 <= j <= j1 <= gy,
                w == j1 - j0,
                g == gx * gy,
                base == l * g,
                out@.len() == (i - i0) * w + (j - j0),
                forall|k: int|
                    0 <= k < out@.len() ==> #[trigger] out@[k] == values@[base + (i0 + k / w) * gy
                        + j0 + k % w],
            decreases j1 - j,
        {
            proof {
                lemma_inside_grid(l as int, i as int, j as int, lead as int, gx as int, gy as int);
                assert(i * gy <= i * gy + j);
                lemma_fundamental_div_mod_converse(
                    (i - i0) * w + (j - j0),
                    w,
                    (i - i0) as int,
                    (j - j0) as int,
                );
            }
            out.push(values[base + i * gy + j]);
            j += 1;
        }
        proof {
            assert((i - i0) * w + w == (i + 1 - i0) * w) by (nonlinear_arith);
        }
        i += 1;
    }
    proof {
        assert(out@ =~= block_group(
            values@,
            gx as nat,
            gy as nat,
            step as nat,
            l as int,
            bi as int,
            bj as int,
        ));
    }
    out
}

proof fn lemma_output_position(l: int, bi: int, bj: int, nx: int, ny: int)
    requires
        0 <= l,
        0 <= bi < nx,
        0 <= bj < ny,
    ensures
        ({
            let o = l * (nx * ny) + bi * ny + bj;
            &&& o / (nx * ny) == l
            &&& (o / ny) % nx == bi
            &&& o % ny == bj
        }),
{
    let o = l * (nx * ny) + bi * ny + bj;
    assert(o == (l * nx + bi) * ny + bj && bi * ny + bj < nx * ny && 0 <= bi * ny + bj) by (
    nonlinear_arith)
        requires
            o == l * (nx * ny) + bi * ny + bj,
            0 <= bi < nx,
            0 <= bj < ny,
    {
        assert(bi * ny <= (nx - 1) * ny);
    }
    lemma_fundamental_div_mod_converse(o, ny, l * nx + bi, bj);
    lemma_fundamental_div_mod_converse(l * nx + bi, nx, l, bi);
    lemma_fundamental_div_mod_converse(o, nx * ny, l, bi * ny + bj);
}

/// The block groups of an array whose leading axes hold `lead` positions and
/// whose spatial grid is `gx` × `gy`, in row-major order over (leading
/// position, block row, block column).
pub fn group_blocks<T: Copy>(values: &Vec<T>, lead: usize, gx: usize, gy: usize, step: usize) -> (r:
    Vec<Vec<T>>)
    requires
        step > 0,
        values@.len() == lead * gx * gy,
    ensures
        ({
            let nx = block_count(gx as nat, step as nat);
            let ny = block_count(gy as nat, step as nat);
            &&& r@.len() == lead * nx * ny
            &&& forall|o: int|
                0 <= o < r@.len() ==> (#[trigger] r@[o])@ == block_group(
                    values@,
                    gx as nat,
                    gy as nat,
                    step as nat,
                    o / (nx * ny) as int,
                    (o / ny as int) % nx as int,
                    o % ny as int,
                )
        }),
{
    let nx = count_blocks(gx, step);
    let ny = count_blocks(gy, step);
    let ghost blocks = nx * ny;
    let mut out: Vec<Vec<T>> = Vec::new();
    let mut l: usize = 0;
    while l < lead
        invariant
            step > 0,
            values@.len() == lead * gx * gy,
            nx == block_count(gx as nat, step as nat),
            ny == block_count(gy as nat, step as nat),
            blocks == nx * ny,
            l <= lead,
            out@.len() == l * blocks,
            forall|o: int|
                0 <= o < out@.len() ==> (#[trigger] out@[o])@ == block_group(
                    values@,
                    gx as nat,
                    gy as nat,
                    step as nat,
                    o / blocks,
                    (o / ny as int) % nx as int,
                    o % ny as int,
                ),
        decreases lead - l,
    {
        let mut bi: usize = 0;
        while bi < nx
            invariant
                step > 0,
                values@.len() == lead * gx * gy,
                nx == block_count(gx as nat, step as nat),
                ny == block_count(gy as nat, step as nat),
                blocks == nx * ny,
                l < lead,
                bi <= nx,
                out@.len() == l * blocks + bi * ny,
                forall|o: int|
                    0 <= o < out@.len() ==> (#[trigger] out@[o])@ == block_group(
                        values@,
                        gx as nat,
                        gy as nat,
                        step as nat,
                        o / blocks,
                        (o / ny as int) % nx as int,
                        o % ny as int,
                    ),
            decreases nx - bi,
        {
            let mut bj: usize = 0;
            while bj < ny
                invariant
                    step > 0,
                    values@.len() == lead * gx * gy,
                    nx == block_count(gx as nat, step as nat),
                    ny == block_count(gy as nat, step as nat),
                    blocks == nx * ny,
                    l < lead,
                    bi < nx,
                    bj <= ny,
                    out@.len() == l * blocks + bi * ny + bj,
                    forall|o: int|
                        0 <= o < out@.len() ==> (#[trigger] out@[o])@ == block_group(
                            values@,
                            gx as nat,
                            gy as nat,
                            step as nat,
                            o / blocks,
                            (o / ny as int) % nx as int,
                            o % ny as int,
                        ),
                decreases ny - bj,
            {
                let group = gather_block(values, lead, gx, gy, step, l, bi, bj);
                proof {
                    lemma_output_position(l as int, bi as int, bj as int, nx as int, ny as int);
                }
                out.push(group);
                bj += 1;
            }
            proof {
                assert(l * blocks + bi * ny + ny == l * blocks + (bi + 1) * ny) by (nonlinear_arith);
            }
            bi += 1;
        }
        proof {
            assert(l * blocks + nx * ny == (l + 1) * blocks) by (nonlinear_arith)
                requires
                    blocks == nx * ny,
            ;
        }
        l += 1;
    }
    proof {
        assert(lead * blocks == lead * nx * ny) by (nonlinear_arith)
            requires
                blocks == nx * ny,
        ;
    }
    out
}

} // verus!
