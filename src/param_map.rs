//! The output parameter map: one parameter vector per pixel of the grid,
//! stored as an array of shape (rows, cols, params).
use vstd::prelude::*;

verus! {

/// What the solver made of one pixel's sweep.
#[derive(Debug)]
pub enum FitOutcome<T> {
    /// The solver terminated successfully with these parameters.
    Converged(Vec<T>),
    /// The solver did not reach a successful termination.
    Failed,
}

/// The parameters written for an outcome: the converged vector, or the
/// sentinel of `count` zeros for a failed fit.
pub open spec fn outcome_params<T>(o: FitOutcome<T>, count: nat, zero: T) -> Seq<T> {
    match o {
        FitOutcome::Converged(v) => v@,
        FitOutcome::Failed => Seq::new(count, |_i: int| zero),
    }
}

/// A converged outcome carries one value per parameter of the model.
pub open spec fn outcome_fits<T>(o: FitOutcome<T>, count: nat) -> bool {
    match o {
        FitOutcome::Converged(v) => v@.len() == count,
        FitOutcome::Failed => true,
    }
}

/// The map in which pixel `p` (row-major over the grid) holds the parameters of `outcomes[p]`.
pub open spec fn assembled<T>(outcomes: Seq<FitOutcome<T>>, count: nat, zero: T) -> Seq<Seq<T>> {
    Seq::new(outcomes.len(), |p: int| outcome_params(outcomes[p], count, zero))
}

/// The map `slots` after pixel `p` has been written with outcome `o`.
pub open spec fn placed<T>(slots: Seq<Seq<T>>, p: int, o: FitOutcome<T>, count: nat, zero: T) -> Seq<
    Seq<T>,
> {
    slots.update(p, outcome_params(o, count, zero))
}

/// The map `slots` after the pixels of `order` have been written one after the
/// other, each with its own outcome.
pub open spec fn placed_in_order<T>(
    slots: Seq<Seq<T>>,
    order: Seq<int>,
    outcomes: Seq<FitOutcome<T>>,
    count: nat,
    zero: T,
) -> Seq<Seq<T>>
    decreases order.len(),
{
    if order.len() == 0 {
        slots
    } else {
        placed(
            placed_in_order(slots, order.drop_last(), outcomes, count, zero),
            order.last(),
            outcomes[order.last()],
            count,
            zero,
        )
    }
}

proof fn lemma_slot_bounds(p: int, n: int, count: int)
    requires
        0 <= p < n,
        0 <= count,
    ensures
        0 <= p * count,
        p * count + count <= n * count,
{
    assert(0 <= p * count && p * count + count <= n * count) by (nonlinear_arith)
        requires
            0 <= p < n,
            0 <= count,
    ;
}

proof fn lemma_slots_disjoint(p: int, q: int, count: int)
    requires
        0 <= p < q,
        0 <= count,
    ensures
        p * count + count <= q * count,
{
    assert(p * count + count <= q * count) by (nonlinear_arith)
        requires
            0 <= p < q,
            0 <= count,
    ;
}

/// Writing two different pixels gives the same map in either order.
pub proof fn lemma_place_commutes<T>(
    slots: Seq<Seq<T>>,
    p: int,
    q: int,
    a: FitOutcome<T>,
    b: FitOutcome<T>,
    count: nat,
    zero: T,
)
    requires
        0 <= p < slots.len(),
        0 <= q < slots.len(),
        p != q,
    ensures
        placed(placed(slots, p, a, count, zero), q, b, count, zero) == placed(
            placed(slots, q, b, count, zero),
            p,
            a,
            count,
            zero,
        ),
{
    assert(placed(placed(slots, p, a, count, zero), q, b, count, zero) =~= placed(
        placed(slots, q, b, count, zero),
        p,
        a,
        count,
        zero,
    ));
}

proof fn lemma_placed_in_order_prefix<T>(
    slots: Seq<Seq<T>>,
    order: Seq<int>,
    outcomes: Seq<FitOutcome<T>>,
    count: nat,
    zero: T,
)
    requires
        slots.len() == outcomes.len(),
        forall|i: int| 0 <= i < order.len() ==> 0 <= #[trigger] order[i] < outcomes.len(),
    ensures
        placed_in_order(slots, order, outcomes, count, zero).len() == slots.len(),
        forall|q: int|
            0 <= q < slots.len() ==> #[trigger] placed_in_order(
                slots,
                order,
                outcomes,
                count,
                zero,
            )[q] == if order.contains(q) {
                outcome_params(outcomes[q], count, zero)
            } else {
                slots[q]
            },
    decreases order.len(),
{
    if order.len() > 0 {
        let rest = order.drop_last();
        assert forall|i: int| 0 <= i < rest.len() implies 0 <= #[trigger] rest[i] < outcomes.len() by {
            assert(rest[i] == order[i]);
        }
        lemma_placed_in_order_prefix(slots, rest, outcomes, count, zero);
        assert(0 <= order.last() < outcomes.len()) by {
            assert(order.last() == order[order.len() - 1]);
        }
        assert forall|q: int| 0 <= q < slots.len() implies #[trigger] order.contains(q) == (
        rest.contains(q) || q == order.last()) by {
            if rest.contains(q) {
                let i = choose|i: int| 0 <= i < rest.len() && rest[i] == q;
                assert(order[i] == q);
            }
            if order.contains(q) && q != order.last() {
                let i = choose|i: int| 0 <= i < order.len() && order[i] == q;
                assert(i != order.len() - 1);
                assert(rest[i] == q);
            }
            if q == order.last() {
                assert(order[order.len() - 1] == q);
            }
        }
    }
}

/// Whatever the order in which the pixels are written, once every pixel has
/// been written each holds the parameters of its own outcome: the same map as
/// the one assembled pixel by pixel.
pub proof fn lemma_order_independent<T>(
    slots: Seq<Seq<T>>,
    order: Seq<int>,
    outcomes: Seq<FitOutcome<T>>,
    count: nat,
    zero: T,
)
    requires
        slots.len() == outcomes.len(),
        forall|i: int| 0 <= i < order.len() ==> 0 <= #[trigger] order[i] < outcomes.len(),
        forall|q: int| 0 <= q < outcomes.len() ==> #[trigger] order.contains(q),
    ensures
        placed_in_order(slots, order, outcomes, count, zero) == assembled(outcomes, count, zero),
{
    lemma_placed_in_order_prefix(slots, order, outcomes, count, zero);
    assert(placed_in_order(slots, order, outcomes, count, zero) =~= assembled(
        outcomes,
        count,
        zero,
    ));
}

/// A failed pixel holds the all-zero sentinel, and every other pixel holds the
/// same parameters as when that pixel's fit succeeds or fails otherwise.
pub proof fn lemma_failure_isolated<T>(
    outcomes: Seq<FitOutcome<T>>,
    p: int,
    count: nat,
    zero: T,
)
    requires
        0 <= p < outcomes.len(),
    ensures
        assembled(outcomes.update(p, FitOutcome::Failed), count, zero)[p] == Seq::new(
            count,
            |_i: int| zero,
        ),
        forall|q: int|
            0 <= q < outcomes.len() && q != p ==> #[trigger] assembled(
                outcomes.update(p, FitOutcome::Failed),
                count,
                zero,
            )[q] == assembled(outcomes, count, zero)[q],
{
}

/// Per-pixel parameter vectors over a grid of `rows` × `cols` pixels, stored
/// as an array of shape (rows, cols, params) in row-major order.
pub struct ParamMap<T> {
    rows: usize,
    cols: usize,
    params: usize,
    values: Vec<T>,
}

impl<T> View for ParamMap<T> {
    /// The parameter vector of each pixel, pixels in row-major order.
    type V = Seq<Seq<T>>;

    closed spec fn view(&self) -> Seq<Seq<T>> {
        Seq::new(
            (self.rows * self.cols) as nat,
            |p: int| self.values@.subrange(p * self.params, p * self.params + self.params),
        )
    }
}

impl<T> ParamMap<T> {
    #[verifier::type_invariant]
    closed spec fn well_formed(self) -> bool {
        self.values@.len() == self.rows * self.cols * self.params
    }

    /// Number of pixel rows.
    pub closed spec fn spec_rows(&self) -> nat {
        self.rows as nat
    }

    /// Number of pixel columns.
    pub closed spec fn spec_cols(&self) -> nat {
        self.cols as nat
    }

    /// Number of parameters per pixel.
    pub closed spec fn spec_params(&self) -> nat {
        self.params as nat
    }

    /// Number of pixel rows.
    pub fn rows(&self) -> (r: usize)
        ensures
            r == self.spec_rows(),
    {
        self.rows
    }

    /// Number of pixel columns.
    pub fn cols(&self) -> (r: usize)
        ensures
            r == self.spec_cols(),
    {
        self.cols
    }

    /// Number of parameters per pixel.
    pub fn params(&self) -> (r: usize)
        ensures
            r == self.spec_params(),
    {
        self.params
    }

    /// The values in row-major order over (rows, cols, params).
    pub fn into_values(self) -> (r: Vec<T>)
        ensures
            r@.len() == self.spec_rows() * self.spec_cols() * self.spec_params(),
            forall|p: int, i: int|
                0 <= p < self@.len() && 0 <= i < self.spec_params() ==> r@[p * self.spec_params()
                    + i] == #[trigger] self@[p][i],
    {
        proof {
            use_type_invariant(&self);
            assert forall|p: int, i: int|
                0 <= p < self@.len() && 0 <= i < self.spec_params() implies self.values@[p
                * self.spec_params() + i] == #[trigger] self@[p][i] by {
                lemma_slot_bounds(p, self@.len() as int, self.params as int);
            }
        }
        self.values
    }
}

impl<T: Copy> ParamMap<T> {
    /// A map of `rows` × `cols` pixels in which every pixel holds `params` zeros.
    pub fn filled(rows: usize, cols: usize, params: usize, zero: T) -> (r: Self)
        requires
            rows * cols * params <= usize::MAX,
        ensures
            r.spec_rows() == rows,
            r.spec_cols() == cols,
            r.spec_params() == params,
            r@ == Seq::new((rows * cols) as nat, |_p: int| Seq::new(params as nat, |_i: int| zero)),
    {
        let ghost n = rows * cols * params;
        let total: usize = if params == 0 {
            0
        } else {
            proof {
                assert(rows * cols <= rows * cols * params) by (nonlinear_arith)
                    requires
                        params >= 1,
                ;
            }
            rows * cols * params
        };
        proof {
            if params == 0 {
                assert(rows * cols * params == 0) by (nonlinear_arith)
                    requires
                        params == 0,
                ;
            }
        }
        let mut values: Vec<T> = Vec::new();
        let mut i: usize = 0;
        while i < total
            invariant
                total == n,
                i <= total,
                values@.len() == i,
                forall|j: int| 0 <= j < i ==> values@[j] == zero,
            decreases total - i,
        {
            values.push(zero);
            i += 1;
        }
        let r = ParamMap { rows, cols, params, values };
        proof {
            assert forall|p: int| 0 <= p < rows * cols implies #[trigger] r@[p] =~= Seq::new(
                params as nat,
                |_i: int| zero,
            ) by {
                lemma_slot_bounds(p, rows * cols, params as int);
            }
            assert(r@ =~= Seq::new((rows * cols) as nat, |_p: int| Seq::new(params as nat, |_i: int| zero)));
        }
        r
    }

    /// Writes the parameters of `outcome` into pixel `p` (row-major over the grid).
    fn place_flat(&mut self, p: usize, outcome: &FitOutcome<T>, zero: T)
        requires
            p < old(self)@.len(),
            outcome_fits(*outcome, old(self).spec_params()),
        ensures
            final(self).spec_rows() == old(self).spec_rows(),
            final(self).spec_cols() == old(self).spec_cols(),
            final(self).spec_params() == old(self).spec_params(),
            final(self)@ == placed(old(self)@, p as int, *outcome, old(self).spec_params(), zero),
        no_unwind
    {
        proof {
            use_type_invariant(&*self);
        }
        let ghost before = self.values@;
        let ghost n = (self.rows * self.cols) as int;
        let len = self.values.len();
        let count = self.params;
        let ghost vals = outcome_params(*outcome, count as nat, zero);
        proof {
            lemma_slot_bounds(p as int, n, count as int);
            assert(n * count == self.values@.len()) by (nonlinear_arith)
                requires
                    n == self.rows * self.cols,
                    self.values@.len() == self.rows * self.cols * self.params,
                    count == self.params,
            ;
        }
        let start = p * count;
        let mut t: usize = 0;
        while t < count
            invariant
                self.rows == old(self).rows,
                self.cols == old(self).cols,
                self.params == count,
                n == self.rows * self.cols,
                self.values@.len() == before.len(),
                before.len() == n * count,
                before == old(self).values@,
                start == p * count,
                start + count <= before.len(),
                len == before.len(),
                vals.len() == count,
                vals == outcome_params(*outcome, count as nat, zero),
                outcome_fits(*outcome, count as nat),
                t <= count,
                forall|j: int|
                    0 <= j < before.len() ==> #[trigger] self.values@[j] == if start <= j < start
                        + t {
                        vals[j - start]
                    } else {
                        before[j]
                    },
            decreases count - t,
        {
            let v = match outcome {
                FitOutcome::Converged(v) => v[t],
                FitOutcome::Failed => zero,
            };
            self.values[start + t] = v;
            t += 1;
        }
        proof {
            let old_view = old(self)@;
            let new_view = self@;
            let target = placed(old_view, p as int, *outcome, count as nat, zero);
            assert forall|q: int| 0 <= q < n implies #[trigger] new_view[q] =~= target[q] by {
                lemma_slot_bounds(q, n, count as int);
                if q < p {
                    lemma_slots_disjoint(q, p as int, count as int);
                } else if q > p {
                    lemma_slots_disjoint(p as int, q, count as int);
                }
            }
            assert(new_view =~= target);
        }
    }

    /// Writes the parameters of `outcome` into pixel (`row`, `col`): the
    /// converged vector, or zeros for a failed fit. Every other pixel keeps
    /// its parameters.
    pub fn place(&mut self, row: usize, col: usize, outcome: &FitOutcome<T>, zero: T)
        requires
            row < old(self).spec_rows(),
            col < old(self).spec_cols(),
            outcome_fits(*outcome, old(self).spec_params()),
        ensures
            final(self).spec_rows() == old(self).spec_rows(),
            final(self).spec_cols() == old(self).spec_cols(),
            final(self).spec_params() == old(self).spec_params(),
            final(self)@ == placed(
                old(self)@,
                row * old(self).spec_cols() + col,
                *outcome,
                old(self).spec_params(),
                zero,
            ),
    {
        proof {
            use_type_invariant(&*self);
            assert(row * self.cols + col < self.rows * self.cols) by (nonlinear_arith)
                requires
                    row < self.rows,
                    col < self.cols,
            ;
        }
        if self.params == 0 {
            proof {
                let q = row * self.cols + col;
                assert(self@[q] =~= outcome_params(*outcome, 0, zero));
                assert(self@ =~= placed(self@, q, *outcome, 0, zero));
            }
            return;
        }
        let len = self.values.len();
        proof {
            assert(self.rows * self.cols <= self.rows * self.cols * self.params) by (nonlinear_arith)
                requires
                    self.params >= 1,
            ;
        }
        let p = row * self.cols + col;
        self.place_flat(p, outcome, zero);
    }

    /// The map of `rows` × `cols` pixels in which pixel `p` (row-major) holds
    /// the parameters of `outcomes[p]`, or zeros where that fit failed.
    pub fn assemble(
        rows: usize,
        cols: usize,
        params: usize,
        outcomes: &Vec<FitOutcome<T>>,
        zero: T,
    ) -> (r: Self)
        requires
            outcomes@.len() == rows * cols,
            rows * cols * params <= usize::MAX,
            forall|p: int| 0 <= p < outcomes@.len() ==> outcome_fits(#[trigger] outcomes@[p], params as nat),
        ensures
            r.spec_rows() == rows,
            r.spec_cols() == cols,
            r.spec_params() == params,
            r@ == assembled(outcomes@, params as nat, zero),
    {
        let mut map = Self::filled(rows, cols, params, zero);
        let n = outcomes.len();
        let mut p: usize = 0;
        while p < n
            invariant
                n == outcomes@.len(),
                n == rows * cols,
                forall|q: int| 0 <= q < outcomes@.len() ==> outcome_fits(#[trigger] outcomes@[q], params as nat),
                map.spec_rows() == rows,
                map.spec_cols() == cols,
                map.spec_params() == params,
                p <= n,
                map@ == Seq::new(
                    n as nat,
                    |q: int|
                        if q < p {
                            outcome_params(outcomes@[q], params as nat, zero)
                        } else {
                            Seq::new(params as nat, |_i: int| zero)
                        },
                ),
            decreases n - p,
        {
            map.place_flat(p, &outcomes[p], zero);
            proof {
                assert(map@ =~= Seq::new(
                    n as nat,
                    |q: int|
                        if q < p + 1 {
                            outcome_params(outcomes@[q], params as nat, zero)
                        } else {
                            Seq::new(params as nat, |_i: int| zero)
                        },
                ));
            }
            p += 1;
        }
        proof {
            assert(map@ =~= assembled(outcomes@, params as nat, zero));
        }
        map
    }
}

} // verus!
