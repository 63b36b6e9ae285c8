//! The 2-D median filter: each pixel becomes the median of a square window
//! around it, clipped at the image border.
use vstd::prelude::*;
use vstd::arithmetic::div_mod::lemma_fundamental_div_mod_converse;
use vstd::relations::{sorted_by, total_ordering};
use vstd::seq_lib::{lemma_sorted_unique, to_multiset_build, to_multiset_insert};

verus! {

/// The ascending order on values.
pub open spec fn ascending_order() -> spec_fn(u64, u64) -> bool {
    |a: u64, b: u64| a <= b
}

/// The values of `s` in ascending order.
pub open spec fn ascending(s: Seq<u64>) -> Seq<u64> {
    s.sort_by(ascending_order())
}

/// The median of a non-empty sequence: the element at position `len / 2` once
/// the values are in ascending order (the upper median for an even length).
pub open spec fn median(s: Seq<u64>) -> u64 {
    ascending(s)[(s.len() / 2) as int]
}

/// First row (or column) of the window around position `i` with half-width `h`.
pub open spec fn window_start(i: int, h: int) -> int {
    if i >= h {
        i - h
    } else {
        0
    }
}

/// One past the last row (or column) of the window around `i` on an axis of `n`.
pub open spec fn window_end(i: int, h: int, n: int) -> int {
    if i + h + 1 <= n {
        i + h + 1
    } else {
        n
    }
}

/// The values of the window of half-width `h` around pixel (`i`, `j`) of a
/// row-major `xdim` × `ydim` image, row by row.
pub open spec fn window_values(image: Seq<u64>, xdim: int, ydim: int, h: int, i: int, j: int) -> Seq<
    u64,
> {
    let x0 = window_start(i, h);
    let y0 = window_start(j, h);
    let w = window_end(j, h, ydim) - y0;
    Seq::new(
        ((window_end(i, h, xdim) - x0) * w) as nat,
        |k: int| image[(x0 + k / w) * ydim + y0 + k % w],
    )
}

/// The median-filtered image: pixel `p` (row-major) is the median of the
/// window of half-width `(kernel_size - 1) / 2` around it.
pub open spec fn median_filtered(image: Seq<u64>, xdim: int, ydim: int, kernel_size: int) -> Seq<
    u64,
> {
    Seq::new(
        (xdim * ydim) as nat,
        |p: int| median(window_values(image, xdim, ydim, (kernel_size - 1) / 2, p / ydim, p % ydim)),
    )
}

proof fn lemma_ascending_total()
    ensures
        total_ordering(ascending_order()),
{
}

/// A sorted rearrangement of `s` is the ascending order of `s`.
proof fn lemma_is_ascending(t: Seq<u64>, s: Seq<u64>)
    requires
        sorted_by(t, ascending_order()),
        t.to_multiset() == s.to_multiset(),
    ensures
        t == ascending(s),
{
    lemma_ascending_total();
    s.lemma_sort_by_ensures(ascending_order());
    lemma_sorted_unique(t, ascending(s), ascending_order());
}

/// The values of `v` in ascending order.
fn sort_ascending(v: &Vec<u64>) -> (r: Vec<u64>)
    ensures
        r@ == ascending(v@),
        r@.len() == v@.len(),
{
    let mut out: Vec<u64> = Vec::new();
    let mut i: usize = 0;
    assert(out@ =~= v@.take(0));
    while i < v.len()
        invariant
            i <= v.len(),
            out@.len() == i,
            sorted_by(out@, ascending_order()),
            out@.to_multiset() == v@.take(i as int).to_multiset(),
        decreases v.len() - i,
    {
        let x = v[i];
        let mut pos: usize = 0;
        while pos < out.len() && out[pos] <= x
            invariant
                pos <= out@.len(),
                forall|a: int| 0 <= a < pos ==> out@[a] <= x,
            decreases out@.len() - pos,
        {
            pos += 1;
        }
        let ghost before = out@;
        out.insert(pos, x);
        proof {
            assert forall|a: int, b: int| 0 <= a < b < out@.len() implies #[trigger] (
            ascending_order())(out@[a], out@[b]) by {
                assert((ascending_order())(out@[a], out@[b]) == (out@[a] <= out@[b]));
                if b < pos {
                    assert((ascending_order())(before[a], before[b]));
                } else if b == pos {
                } else if a < pos {
                    assert(pos < before.len());
                    assert(x < before[pos as int]);
                    if pos < b - 1 {
                        assert((ascending_order())(before[pos as int], before[b - 1]));
                    }
                } else if a == pos {
                    assert(x < before[pos as int]);
                    if pos < b - 1 {
                        assert((ascending_order())(before[pos as int], before[b - 1]));
                    }
                } else {
                    assert((ascending_order())(before[a - 1], before[b - 1]));
                }
            }
            to_multiset_insert(before, pos as int, x);
            assert(v@.take(i + 1) =~= v@.take(i as int).push(x));
            to_multiset_build(v@.take(i as int), x);
        }
        i += 1;
    }
    proof {
        assert(v@.take(v@.len() as int) =~= v@);
        lemma_is_ascending(out@, v@);
    }
    out
}

proof fn lemma_inside_image(a: int, b: int, xdim: int, ydim: int)
    requires
        0 <= a < xdim,
        0 <= b < ydim,
    ensures
        0 <= a * ydim,
        a * ydim + b < xdim * ydim,
{
    assert(0 <= a * ydim && a * ydim + b < xdim * ydim) by (nonlinear_arith)
        requires
            0 <= a < xdim,
            0 <= b < ydim,
    {
        assert(a * ydim <= (xdim - 1) * ydim);
    }
}

/// The values of the window of half-width `h` around pixel (`i`, `j`).
fn gather_window(image: &Vec<u64>, xdim: usize, ydim: usize, h: usize, i: usize, j: usize) -> (r:
    Vec<u64>)
    requires
        image@.len() == xdim * ydim,
        i < xdim,
        j < ydim,
    ensures
        r@ == window_values(image@, xdim as int, ydim as int, h as int, i as int, j as int),
        r@.len() >= 1,
{
    let len = image.len();
    let x0 = if i >= h {
        i - h
    } else {
        0
    };
    let x1 = if xdim - i > h {
        i + h + 1
    } else {
        xdim
    };
    let y0 = if j >= h {
        j - h
    } else {
        0
    };
    let y1 = if ydim - j > h {
        j + h + 1
    } else {
        ydim
    };
    let ghost w = (y1 - y0) as int;
    let mut out: Vec<u64> = Vec::new();
    let mut a = x0;
    while a < x1
        invariant
            len == image@.len(),
            len == xdim * ydim,
            x0 <= a <= x1 <= xdim,
            y0 < y1 <= ydim,
            w == y1 - y0,
            out@.len() == (a - x0) * w,
            forall|k: int|
                0 <= k < out@.len() ==> #[trigger] out@[k] == image@[(x0 + k / w) * ydim + y0 + k
                    % w],
        decreases x1 - a,
    {
        let mut b = y0;
        while b < y1
            invariant
                len == image@.len(),
                len == xdim * ydim,
                x0 <= a < x1 <= xdim,
                y0 <= b <= y1 <= ydim,
                w == y1 - y0,
                out@.len() == (a - x0) * w + (b - y0),
                forall|k: int|
                    0 <= k < out@.len() ==> #[trigger] out@[k] == image@[(x0 + k / w) * ydim + y0
                        + k % w],
            decreases y1 - b,
        {
            proof {
                lemma_inside_image(a as int, b as int, xdim as int, ydim as int);
                lemma_fundamental_div_mod_converse(
                    (a - x0) * w + (b - y0),
                    w,
                    (a - x0) as int,
                    (b - y0) as int,
                );
            }
            out.push(image[a * ydim + b]);
            b += 1;
        }
        proof {
            assert((a - x0) * w + w == (a + 1 - x0) * w) by (nonlinear_arith);
        }
        a += 1;
    }
    proof {
        assert(out@ =~= window_values(image@, xdim as int, ydim as int, h as int, i as int, j as int));
        assert((x1 - x0) * w >= 1) by (nonlinear_arith)
            requires
                x1 - x0 >= 1,
                w >= 1,
        ;
    }
    out
}

/// The median-filtered image of a row-major `xdim` × `ydim` image with a
/// square window of side `kernel_size` (odd sizes are centred; the window is
/// clipped at the border).
pub fn medfilt2d(image: &Vec<u64>, xdim: usize, ydim: usize, kernel_size: usize) -> (r: Vec<u64>)
    requires
        image@.len() == xdim * ydim,
        kernel_size >= 1,
    ensures
        r@ == median_filtered(image@, xdim as int, ydim as int, kernel_size as int),
{
    let h = (kernel_size - 1) / 2;
    let mut out: Vec<u64> = Vec::new();
    let ghost target = median_filtered(image@, xdim as int, ydim as int, kernel_size as int);
    let mut i: usize = 0;
    while i < xdim
        invariant
            image@.len() == xdim * ydim,
            h == (kernel_size - 1) / 2,
            target == median_filtered(image@, xdim as int, ydim as int, kernel_size as int),
            i <= xdim,
            out@.len() == i * ydim,
            forall|p: int| 0 <= p < out@.len() ==> #[trigger] out@[p] == target[p],
        decreases xdim - i,
    {
        let mut j: usize = 0;
        while j < ydim
            invariant
                image@.len() == xdim * ydim,
                h == (kernel_size - 1) / 2,
                target == median_filtered(image@, xdim as int, ydim as int, kernel_size as int),
                i < xdim,
                j <= ydim,
                out@.len() == i * ydim + j,
                forall|p: int| 0 <= p < out@.len() ==> #[trigger] out@[p] == target[p],
            decreases ydim - j,
        {
            let window = gather_window(image, xdim, ydim, h, i, j);
            let sorted = sort_ascending(&window);
            let m = sorted[sorted.len() / 2];
            proof {
                lemma_inside_image(i as int, j as int, xdim as int, ydim as int);
                lemma_fundamental_div_mod_converse(
                    i * ydim + j,
                    ydim as int,
                    i as int,
                    j as int,
                );
            }
            out.push(m);
            j += 1;
        }
        proof {
            assert(i * ydim + ydim == (i + 1) * ydim) by (nonlinear_arith);
        }
        i += 1;
    }
    proof {
        assert(out@ =~= target);
    }
    out
}

} // verus!
