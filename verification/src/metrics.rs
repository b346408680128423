use vstd::prelude::*;

use crate::cell::Cell;
use crate::world::{cell_index, SchellingWorld, WorldModel};

verus! {

/// The neighbourhood of one agent: its group and its same-colour and occupied
/// neighbour counts.  The segregation indices of a step (average same-colour share per
/// group, share of agents without neighbours of the other group, and the simple
/// dissimilarity index) are computed from these.
#[derive(Clone, Copy, PartialEq, Eq, Debug, Structural)]
pub struct NeighborCount {
    pub color: Cell,
    pub same: usize,
    pub total: usize,
}

pub open spec fn neighbor_count_view(n: NeighborCount) -> (Cell, int, int) {
    (n.color, n.same as int, n.total as int)
}

/// The neighbourhood of the cell with row-major index `i`, if it is occupied.
pub open spec fn cell_sample(m: WorldModel, i: int) -> Option<(Cell, int, int)> {
    let r = i / m.cols;
    let c = i % m.cols;
    if m.cell_at(r, c) == Cell::Empty {
        None
    } else {
        Some((m.cell_at(r, c), m.neighbor_counts(r, c).0, m.neighbor_counts(r, c).1))
    }
}

/// Neighbourhoods of the agents in the first `k` cells, in row-major order.
pub open spec fn samples(m: WorldModel, k: nat) -> Seq<(Cell, int, int)>
    decreases k,
{
    if k == 0 {
        Seq::empty()
    } else {
        let prev = samples(m, (k - 1) as nat);
        match cell_sample(m, k - 1) {
            Some(x) => prev.push(x),
            None => prev,
        }
    }
}

/// Number of neighbourhoods in `s` whose agent belongs to `c`.
pub open spec fn count_group(s: Seq<(Cell, int, int)>, c: Cell) -> nat
    decreases s.len(),
{
    if s.len() == 0 {
        0
    } else {
        count_group(s.drop_last(), c) + if s.last().0 == c { 1nat } else { 0nat }
    }
}

/// Number of neighbourhoods in `s` without a neighbour of the other group (every
/// occupied neighbour shares the agent's colour).
pub open spec fn count_no_opposite(s: Seq<(Cell, int, int)>) -> nat
    decreases s.len(),
{
    if s.len() == 0 {
        0
    } else {
        count_no_opposite(s.drop_last()) + if s.last().1 == s.last().2 { 1nat } else { 0nat }
    }
}

/// The raw counts of one step: its number, the agents dissatisfied at its start, the
/// agents that moved, and every agent's neighbourhood in row-major order.
#[derive(Clone, Debug)]
pub struct MetricCounts {
    pub step: usize,
    pub n_dissatisfied: usize,
    pub n_moved: usize,
    pub neighborhoods: Vec<NeighborCount>,
}

impl MetricCounts {
    /// Collects the counts of the current state of `world`.
    pub fn compute(world: &SchellingWorld, step: usize, n_dissatisfied: usize, n_moved: usize) -> (out: MetricCounts)
        requires
            world.wf(),
        ensures
            out.step == step,
            out.n_dissatisfied == n_dissatisfied,
            out.n_moved == n_moved,
            out.samples_view() == samples(world@, (world@.rows * world@.cols) as nat),
    {
        let ghost m = world@;
        let rows = world.rows();
        let cols = world.cols();
        let mut out: Vec<NeighborCount> = Vec::new();
        let mut r: usize = 0;
        while r < rows
            invariant
                world.wf(),
                m == world@,
                rows == m.rows,
                cols == m.cols,
                r <= rows,
                out@.map_values(|x: NeighborCount| neighbor_count_view(x)) == samples(
                    m,
                    (r * cols) as nat,
                ),
            decreases rows - r,
        {
            let mut c: usize = 0;
            while c < cols
                invariant
                    world.wf(),
                    m == world@,
                    rows == m.rows,
                    cols == m.cols,
                    r < rows,
                    c <= cols,
                    out@.map_values(|x: NeighborCount| neighbor_count_view(x)) == samples(
                        m,
                        (r * cols + c) as nat,
                    ),
                decreases cols - c,
            {
                let ghost i = cell_index(cols as int, r as int, c as int);
                proof {
                    vstd::arithmetic::div_mod::lemma_fundamental_div_mod_converse_div(i, cols as int, r as int, c as int);
                    vstd::arithmetic::div_mod::lemma_fundamental_div_mod_converse_mod(i, cols as int, r as int, c as int);
                    assert(r * cols + c >= 0) by (nonlinear_arith)
                        requires
                            r >= 0,
                            cols >= 0,
                            c >= 0,
                    ;
                }
                let color = world.cell_color(r, c);
                let ghost before = out@;
                if color != Cell::Empty {
                    let (same, total) = world.neighbor_counts_buf(r, c);
                    out.push(NeighborCount { color, same, total });
                }
                proof {
                    assert(samples(m, (i + 1) as nat) == match cell_sample(m, i) {
                        Some(x) => samples(m, i as nat).push(x),
                        None => samples(m, i as nat),
                    });
                    assert(out@.map_values(|x: NeighborCount| neighbor_count_view(x)) =~= samples(
                        m,
                        (i + 1) as nat,
                    ));
                }
                c = c + 1;
            }
            proof {
                assert((r + 1) * cols == r * cols + cols) by (nonlinear_arith);
            }
            r = r + 1;
        }
        MetricCounts { step, n_dissatisfied, n_moved, neighborhoods: out }
    }

    /// The neighbourhoods as plain values.
    pub open spec fn samples_view(&self) -> Seq<(Cell, int, int)> {
        self.neighborhoods@.map_values(|x: NeighborCount| neighbor_count_view(x))
    }

    /// The agents of group A, the agents of group B, and the agents without a neighbour
    /// of the other group.
    pub fn tallies(&self) -> (t: (usize, usize, usize))
        ensures
            t.0 == count_group(self.samples_view(), Cell::GroupA),
            t.1 == count_group(self.samples_view(), Cell::GroupB),
            t.2 == count_no_opposite(self.samples_view()),
    {
        let ghost s = self.samples_view();
        let n = self.neighborhoods.len();
        let mut count_a: usize = 0;
        let mut count_b: usize = 0;
        let mut no_opp: usize = 0;
        let mut i: usize = 0;
        while i < n
            invariant
                n == self.neighborhoods@.len(),
                s == self.samples_view(),
                i <= n,
                count_a <= i,
                count_b <= i,
                no_opp <= i,
                count_a == count_group(s.take(i as int), Cell::GroupA),
                count_b == count_group(s.take(i as int), Cell::GroupB),
                no_opp == count_no_opposite(s.take(i as int)),
            decreases n - i,
        {
            let x = self.neighborhoods[i];
            proof {
                assert(s.take(i + 1).drop_last() =~= s.take(i as int));
                assert(s.take(i + 1).last() == neighbor_count_view(x));
            }
            match x.color {
                Cell::GroupA => count_a = count_a + 1,
                Cell::GroupB => count_b = count_b + 1,
                Cell::Empty => {},
            }
            if x.same == x.total {
                no_opp = no_opp + 1;
            }
            i = i + 1;
        }
        proof {
            assert(s.take(n as int) =~= s);
        }
        (count_a, count_b, no_opp)
    }
}

} // verus!
