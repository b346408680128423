use vstd::prelude::*;

use crate::cell::Cell;
use crate::config::{rule_satisfied, MoveMode, MoveStrategy, SatisfactionRule};

verus! {

/// Row-major index of cell `(r, c)` in a grid with `cols` columns.
pub open spec fn cell_index(cols: int, r: int, c: int) -> int {
    r * cols + c
}

/// `(r, c)` lies inside a `rows` x `cols` grid.
pub open spec fn in_grid(rows: int, cols: int, r: int, c: int) -> bool {
    0 <= r < rows && 0 <= c < cols
}

/// Row-major (lexicographic) order on cells.
pub open spec fn row_major_lt(a: (int, int), b: (int, int)) -> bool {
    a.0 < b.0 || (a.0 == b.0 && a.1 < b.1)
}

pub open spec fn abs_diff(x: int, y: int) -> int {
    if x >= y { x - y } else { y - x }
}

/// Chebyshev distance between two cells (fixed, non-wrapping boundary).
pub open spec fn chebyshev(a: (int, int), b: (int, int)) -> int {
    let dr = abs_diff(a.0, b.0);
    let dc = abs_diff(a.1, b.1);
    if dr >= dc { dr } else { dc }
}

/// The order in which vacant cells are examined from `from`: ascending Chebyshev
/// distance, ties in row-major order.
pub open spec fn closer(from: (int, int), a: (int, int), b: (int, int)) -> bool {
    chebyshev(from, a) < chebyshev(from, b) || (chebyshev(from, a) == chebyshev(from, b)
        && row_major_lt(a, b))
}

/// A same-colour share `same / total`, held exactly as a pair with positive denominator.
pub open spec fn frac_lt(a: (int, int), b: (int, int)) -> bool {
    a.0 * b.1 < b.0 * a.1
}

pub open spec fn frac_eq(a: (int, int), b: (int, int)) -> bool {
    a.0 * b.1 == b.0 * a.1
}

/// The share of same-colour neighbours; an agent without occupied neighbours counts as 1.
pub open spec fn share(same: int, total: int) -> (int, int) {
    if total == 0 { (1, 1) } else { (same, total) }
}

/// Bounds on row-major indices.
pub proof fn lemma_index_bounds(rows: int, cols: int, r: int, c: int)
    requires
        in_grid(rows, cols, r, c),
    ensures
        0 <= cell_index(cols, r, c) < rows * cols,
        cell_index(cols, r, c) + 1 <= rows * cols,
{
    assert(0 <= r * cols + c < rows * cols) by (nonlinear_arith)
        requires
            0 <= r < rows,
            0 <= c < cols,
    ;
}

/// Row-major indices of cells are distinct, and ordered as the cells are.
pub proof fn lemma_index_order(cols: int, a: (int, int), b: (int, int))
    requires
        0 <= a.0,
        0 <= b.0,
        0 <= a.1 < cols,
        0 <= b.1 < cols,
    ensures
        cell_index(cols, a.0, a.1) == cell_index(cols, b.0, b.1) <==> a == b,
        cell_index(cols, a.0, a.1) < cell_index(cols, b.0, b.1) <==> row_major_lt(a, b),
{
    let (r1, c1, r2, c2) = (a.0, a.1, b.0, b.1);
    if r1 < r2 {
        assert(r1 * cols + c1 < r2 * cols + c2) by (nonlinear_arith)
            requires
                0 <= r1 < r2,
                0 <= c1 < cols,
                0 <= c2 < cols,
        ;
    } else if r2 < r1 {
        assert(r2 * cols + c2 < r1 * cols + c1) by (nonlinear_arith)
            requires
                0 <= r2 < r1,
                0 <= c1 < cols,
                0 <= c2 < cols,
        ;
    }
}

/// The abstract state of the spatial model: which agent occupies each cell, where each
/// agent stands, each agent's group, and the rules that drive the agents.
pub struct WorldModel {
    pub rows: int,
    pub cols: int,
    pub occupant: Seq<Option<usize>>,
    pub position: Seq<(usize, usize)>,
    pub color: Seq<Cell>,
    pub rule: SatisfactionRule,
    pub move_mode: MoveMode,
    pub move_strategy: MoveStrategy,
}

impl WorldModel {
    /// Number of agents; agents are identified by `0..n_agents()`.
    pub open spec fn n_agents(self) -> int {
        self.color.len() as int
    }

    pub open spec fn pos(self, id: int) -> (int, int) {
        (self.position[id].0 as int, self.position[id].1 as int)
    }

    /// Occupancy and positions are inverse to each other, and every agent has a group.
    pub open spec fn wf(self) -> bool {
        &&& 0 <= self.rows < usize::MAX
        &&& 0 <= self.cols < usize::MAX
        &&& self.occupant.len() == self.rows * self.cols
        &&& self.position.len() == self.color.len()
        &&& self.color.len() <= usize::MAX
        &&& forall|id: int|
            0 <= id < self.n_agents() ==> {
                &&& in_grid(self.rows, self.cols, #[trigger] self.pos(id).0, self.pos(id).1)
                &&& self.occupant[cell_index(self.cols, self.pos(id).0, self.pos(id).1)]
                    == Some(id as usize)
                &&& self.color[id] != Cell::Empty
            }
        &&& forall|i: int|
            0 <= i < self.occupant.len() && (#[trigger] self.occupant[i]) is Some ==> {
                &&& (self.occupant[i]->0 as int) < self.n_agents()
                &&& cell_index(
                    self.cols,
                    self.pos(self.occupant[i]->0 as int).0,
                    self.pos(self.occupant[i]->0 as int).1,
                ) == i
            }
    }

    /// The group at `(r, c)`; vacant cells and cells outside the grid read as `Empty`.
    pub open spec fn cell_at(self, r: int, c: int) -> Cell {
        if in_grid(self.rows, self.cols, r, c) {
            match self.occupant[cell_index(self.cols, r, c)] {
                Some(id) => self.color[id as int],
                None => Cell::Empty,
            }
        } else {
            Cell::Empty
        }
    }

    /// The group at `(r, c)` when the cell `skip` is taken to be vacant.
    pub open spec fn seen(self, r: int, c: int, skip: Option<(int, int)>) -> Cell {
        if skip == Some((r, c)) {
            Cell::Empty
        } else {
            self.cell_at(r, c)
        }
    }

    pub open spec fn occ_ind(self, r: int, c: int, skip: Option<(int, int)>) -> int {
        if self.seen(r, c, skip) != Cell::Empty { 1 } else { 0 }
    }

    pub open spec fn same_ind(self, r: int, c: int, agent: Cell, skip: Option<(int, int)>) -> int {
        if self.seen(r, c, skip) != Cell::Empty && self.seen(r, c, skip) == agent { 1 } else { 0 }
    }

    /// Number of occupied cells among the eight Moore neighbours of `(r, c)`.
    pub open spec fn occ_around(self, r: int, c: int, skip: Option<(int, int)>) -> int {
        self.occ_ind(r - 1, c - 1, skip) + self.occ_ind(r - 1, c, skip) + self.occ_ind(r - 1, c + 1, skip)
            + self.occ_ind(r, c - 1, skip) + self.occ_ind(r, c + 1, skip)
            + self.occ_ind(r + 1, c - 1, skip) + self.occ_ind(r + 1, c, skip)
            + self.occ_ind(r + 1, c + 1, skip)
    }

    /// Number of Moore neighbours of `(r, c)` occupied by agents of group `agent`.
    pub open spec fn same_around(self, r: int, c: int, agent: Cell, skip: Option<(int, int)>) -> int {
        self.same_ind(r - 1, c - 1, agent, skip) + self.same_ind(r - 1, c, agent, skip)
            + self.same_ind(r - 1, c + 1, agent, skip) + self.same_ind(r, c - 1, agent, skip)
            + self.same_ind(r, c + 1, agent, skip) + self.same_ind(r + 1, c - 1, agent, skip)
            + self.same_ind(r + 1, c, agent, skip) + self.same_ind(r + 1, c + 1, agent, skip)
    }

    /// `(same, occupied)` neighbour counts of the agent at `(r, c)`; `(0, 0)` for a vacant cell.
    pub open spec fn neighbor_counts(self, r: int, c: int) -> (int, int) {
        if self.cell_at(r, c) == Cell::Empty {
            (0, 0)
        } else {
            (self.same_around(r, c, self.cell_at(r, c), None), self.occ_around(r, c, None))
        }
    }

    /// A vacant cell counts as satisfied; an agent is satisfied when the rule holds of its
    /// neighbour counts.
    pub open spec fn satisfied(self, r: int, c: int) -> bool {
        self.cell_at(r, c) == Cell::Empty || rule_satisfied(
            self.rule,
            self.neighbor_counts(r, c).0,
            self.neighbor_counts(r, c).1,
        )
    }

    /// Same-colour share of the agent at `(r, c)` (1 when it has no occupied neighbour).
    pub open spec fn current_share(self, r: int, c: int) -> (int, int) {
        share(self.neighbor_counts(r, c).0, self.neighbor_counts(r, c).1)
    }

    /// Neighbour counts at `to` for the agent at `from`, as if it had moved there.
    pub open spec fn counts_after_move(self, from: (int, int), to: (int, int)) -> (int, int) {
        (
            self.same_around(to.0, to.1, self.cell_at(from.0, from.1), Some(from)),
            self.occ_around(to.0, to.1, Some(from)),
        )
    }

    /// Whether the agent at `from` would be satisfied at `to`.
    pub open spec fn sat_after_move(self, from: (int, int), to: (int, int)) -> bool {
        rule_satisfied(
            self.rule,
            self.counts_after_move(from, to).0,
            self.counts_after_move(from, to).1,
        )
    }

    /// Same-colour share the agent at `from` would have at `to`.
    pub open spec fn share_after_move(self, from: (int, int), to: (int, int)) -> (int, int) {
        share(self.counts_after_move(from, to).0, self.counts_after_move(from, to).1)
    }

    pub open spec fn vacant(self, v: (int, int)) -> bool {
        in_grid(self.rows, self.cols, v.0, v.1) && self.cell_at(v.0, v.1) == Cell::Empty
    }

    /// The lattice as a row-major sequence of groups.
    pub open spec fn grid_cells(self) -> Seq<Cell> {
        Seq::new(
            self.occupant.len(),
            |i: int|
                match self.occupant[i] {
                    Some(id) => self.color[id as int],
                    None => Cell::Empty,
                },
        )
    }

    /// A vacant cell where the agent at `from` would be satisfied.
    pub open spec fn move_candidate(self, from: (int, int), v: (int, int)) -> bool {
        self.vacant(v) && self.sat_after_move(from, v)
    }

    /// `v` is the first candidate in order of distance from `from` (ties row-major).
    pub open spec fn is_nearest(self, from: (int, int), v: (int, int)) -> bool {
        &&& self.move_candidate(from, v)
        &&& forall|u: (int, int)|
            #[trigger] self.move_candidate(from, u) && u != v ==> closer(from, v, u)
    }

    /// The destination of the nearest-cell strategy, if any candidate exists.
    pub open spec fn nearest_target(self, from: (int, int)) -> Option<(int, int)> {
        if exists|v: (int, int)| self.is_nearest(from, v) {
            Some(choose|v: (int, int)| self.is_nearest(from, v))
        } else {
            None
        }
    }

    /// Candidate `v` is preferred to candidate `u` by the best-local strategy: a larger
    /// share after the move, or an equal share and `v` closer.
    pub open spec fn better_local(self, from: (int, int), v: (int, int), u: (int, int)) -> bool {
        frac_lt(self.share_after_move(from, u), self.share_after_move(from, v)) || (frac_eq(
            self.share_after_move(from, u),
            self.share_after_move(from, v),
        ) && closer(from, v, u))
    }

    /// `v` is the candidate preferred to all others by the best-local strategy.
    pub open spec fn is_best_local(self, from: (int, int), v: (int, int)) -> bool {
        &&& self.move_candidate(from, v)
        &&& forall|u: (int, int)|
            #[trigger] self.move_candidate(from, u) && u != v ==> self.better_local(from, v, u)
    }

    /// The destination of the best-local strategy, if any candidate exists.
    pub open spec fn best_local_target(self, from: (int, int)) -> Option<(int, int)> {
        if exists|v: (int, int)| self.is_best_local(from, v) {
            Some(choose|v: (int, int)| self.is_best_local(from, v))
        } else {
            None
        }
    }

    /// The destination of a dissatisfied agent at `from` under the world's strategy.
    pub open spec fn move_target(self, from: (int, int)) -> Option<(int, int)> {
        match self.move_strategy {
            MoveStrategy::Nearest => self.nearest_target(from),
            MoveStrategy::BestLocal => self.best_local_target(from),
        }
    }

    /// A vacant cell that strictly raises the same-colour share of the agent at `from` and
    /// where it stays satisfied.
    pub open spec fn speculative_candidate(self, from: (int, int), v: (int, int)) -> bool {
        &&& self.vacant(v)
        &&& frac_lt(self.current_share(from.0, from.1), self.share_after_move(from, v))
        &&& self.sat_after_move(from, v)
    }

    pub open spec fn is_speculative(self, from: (int, int), v: (int, int)) -> bool {
        &&& self.speculative_candidate(from, v)
        &&& forall|u: (int, int)|
            #[trigger] self.speculative_candidate(from, u) && u != v ==> closer(from, v, u)
    }

    /// The destination of a speculative move under strict operation, if any.
    pub open spec fn speculative_target(self, from: (int, int)) -> Option<(int, int)> {
        if exists|v: (int, int)| self.is_speculative(from, v) {
            Some(choose|v: (int, int)| self.is_speculative(from, v))
        } else {
            None
        }
    }

    /// Agent `id` moves to cell `to`.
    pub open spec fn apply_move(self, id: int, to: (int, int)) -> WorldModel {
        let from = self.pos(id);
        WorldModel {
            occupant: self.occupant.update(cell_index(self.cols, from.0, from.1), None).update(
                cell_index(self.cols, to.0, to.1),
                Some(id as usize),
            ),
            position: self.position.update(id, (to.0 as usize, to.1 as usize)),
            ..self
        }
    }
}


/// The best-local destination of the agent at `from`: a vacant cell where the agent
/// would be satisfied, whose same-colour share after the move is at least that of any
/// other such cell `u`; when `u` gives an equal share, `u` is not nearer in Chebyshev
/// distance, and when it is as near, `u` comes later in row-major order.
pub proof fn lemma_best_local_target_is_best(m: WorldModel, from: (int, int), u: (int, int))
    requires
        m.best_local_target(from) is Some,
    ensures
        ({
            let v = m.best_local_target(from)->0;
            let sv = m.share_after_move(from, v);
            let su = m.share_after_move(from, u);
            &&& m.vacant(v)
            &&& m.sat_after_move(from, v)
            &&& m.vacant(u) && m.sat_after_move(from, u) && u != v ==> {
                &&& su.0 * sv.1 <= sv.0 * su.1
                &&& su.0 * sv.1 == sv.0 * su.1 ==> chebyshev(from, v) <= chebyshev(from, u)
                &&& su.0 * sv.1 == sv.0 * su.1 && chebyshev(from, v) == chebyshev(from, u) ==> row_major_lt(v, u)
            }
        }),
{
    let v = m.best_local_target(from)->0;
    assert(m.is_best_local(from, v));
    if m.move_candidate(from, u) && u != v {
        assert(m.better_local(from, v, u));
    }
}

/// The nearest destination of the agent at `from`: a vacant cell where the agent would be
/// satisfied, and no other such cell `u` is nearer in Chebyshev distance, or as near and
/// earlier in row-major order.
pub proof fn lemma_nearest_target_is_nearest(m: WorldModel, from: (int, int), u: (int, int))
    requires
        m.nearest_target(from) is Some,
    ensures
        ({
            let v = m.nearest_target(from)->0;
            &&& m.vacant(v)
            &&& m.sat_after_move(from, v)
            &&& m.vacant(u) && m.sat_after_move(from, u) && u != v ==> {
                &&& chebyshev(from, v) <= chebyshev(from, u)
                &&& chebyshev(from, v) == chebyshev(from, u) ==> row_major_lt(v, u)
            }
        }),
{
    let v = m.nearest_target(from)->0;
    assert(m.is_nearest(from, v));
    if m.move_candidate(from, u) && u != v {
        assert(closer(from, v, u));
    }
}

/// The speculative destination of the agent at `from`: a vacant cell where its
/// same-colour share after the move is strictly larger than its current one and it would
/// be satisfied; no other such cell `u` is nearer in Chebyshev distance, or as near and
/// earlier in row-major order.
pub proof fn lemma_speculative_target_is_nearest(m: WorldModel, from: (int, int), u: (int, int))
    requires
        m.speculative_target(from) is Some,
    ensures
        ({
            let v = m.speculative_target(from)->0;
            let cur = m.current_share(from.0, from.1);
            let sv = m.share_after_move(from, v);
            let su = m.share_after_move(from, u);
            &&& m.vacant(v)
            &&& cur.0 * sv.1 < sv.0 * cur.1
            &&& m.sat_after_move(from, v)
            &&& m.vacant(u) && cur.0 * su.1 < su.0 * cur.1 && m.sat_after_move(from, u) && u != v ==> {
                &&& chebyshev(from, v) <= chebyshev(from, u)
                &&& chebyshev(from, v) == chebyshev(from, u) ==> row_major_lt(v, u)
            }
        }),
{
    let v = m.speculative_target(from)->0;
    assert(m.is_speculative(from, v));
    if m.speculative_candidate(from, u) && u != v {
        assert(closer(from, v, u));
    }
}

/// In a well-formed world a vacant cell has no occupant, and the cell of agent `id`
/// shows its group.
pub proof fn lemma_cell_of_agent(m: WorldModel, id: int)
    requires
        m.wf(),
        0 <= id < m.n_agents(),
    ensures
        m.cell_at(m.pos(id).0, m.pos(id).1) == m.color[id],
        m.cell_at(m.pos(id).0, m.pos(id).1) != Cell::Empty,
        !m.vacant(m.pos(id)),
{
    assert(in_grid(m.rows, m.cols, m.pos(id).0, m.pos(id).1));
}

/// A vacant cell inside the grid has no occupant.
pub proof fn lemma_vacant_unoccupied(m: WorldModel, v: (int, int))
    requires
        m.wf(),
        m.vacant(v),
    ensures
        m.occupant[cell_index(m.cols, v.0, v.1)] is None,
{
    lemma_index_bounds(m.rows, m.cols, v.0, v.1);
    let i = cell_index(m.cols, v.0, v.1);
    if m.occupant[i] is Some {
        let x = m.occupant[i]->0 as int;
        assert(m.color[x] != Cell::Empty);
    }
}

/// Moving an agent to a vacant cell keeps the world well formed; afterwards the
/// destination shows the agent's group, the origin is vacant, and every other cell is
/// unchanged.
pub proof fn lemma_apply_move(m: WorldModel, id: int, to: (int, int))
    requires
        m.wf(),
        0 <= id < m.n_agents(),
        m.vacant(to),
    ensures
        m.apply_move(id, to).wf(),
        m.apply_move(id, to).pos(id) == to,
        m.apply_move(id, to).color == m.color,
        m.pos(id) != to,
        forall|r: int, c: int|
            #[trigger] m.apply_move(id, to).cell_at(r, c) == if (r, c) == to {
                m.color[id]
            } else if (r, c) == m.pos(id) {
                Cell::Empty
            } else {
                m.cell_at(r, c)
            },
{
    let from = m.pos(id);
    let m2 = m.apply_move(id, to);
    lemma_cell_of_agent(m, id);
    lemma_vacant_unoccupied(m, to);
    lemma_index_bounds(m.rows, m.cols, to.0, to.1);
    lemma_index_bounds(m.rows, m.cols, from.0, from.1);
    let it = cell_index(m.cols, to.0, to.1);
    let ifr = cell_index(m.cols, from.0, from.1);
    lemma_index_order(m.cols, from, to);
    assert(ifr != it);
    assert(m2.pos(id) == to);
    assert forall|id2: int| 0 <= id2 < m2.n_agents() implies {
        &&& in_grid(m2.rows, m2.cols, #[trigger] m2.pos(id2).0, m2.pos(id2).1)
        &&& m2.occupant[cell_index(m2.cols, m2.pos(id2).0, m2.pos(id2).1)] == Some(id2 as usize)
        &&& m2.color[id2] != Cell::Empty
    } by {
        if id2 != id {
            let p2 = m.pos(id2);
            assert(m.pos(id2) == m2.pos(id2));
            assert(in_grid(m.rows, m.cols, p2.0, p2.1));
            let i2 = cell_index(m.cols, p2.0, p2.1);
            lemma_index_bounds(m.rows, m.cols, p2.0, p2.1);
            assert(m.occupant[i2] == Some(id2 as usize));
            assert(i2 != it);
            assert(i2 != ifr);
            assert(m2.occupant[i2] == Some(id2 as usize));
            assert(m2.color[id2] != Cell::Empty);
            assert(in_grid(m2.rows, m2.cols, m2.pos(id2).0, m2.pos(id2).1));
        } else {
            assert(m2.pos(id2) == to);
            assert(m2.occupant.len() == m.occupant.len());
            assert(m2.occupant[it] == Some(id as usize));
            assert(m2.color[id2] != Cell::Empty);
            assert(in_grid(m2.rows, m2.cols, m2.pos(id2).0, m2.pos(id2).1));
            assert(cell_index(m2.cols, m2.pos(id2).0, m2.pos(id2).1) == it);
        }
    }
    assert forall|i: int| 0 <= i < m2.occupant.len() && (#[trigger] m2.occupant[i]) is Some implies {
        &&& (m2.occupant[i]->0 as int) < m2.n_agents()
        &&& cell_index(
            m2.cols,
            m2.pos(m2.occupant[i]->0 as int).0,
            m2.pos(m2.occupant[i]->0 as int).1,
        ) == i
    } by {
        if i != it && i != ifr {
            assert(m2.occupant[i] == m.occupant[i]);
            assert(m.occupant[i] is Some);
            let x = m.occupant[i]->0 as int;
            assert(x != id);
        }
    }
    assert forall|r: int, c: int|
        #[trigger] m2.cell_at(r, c) == if (r, c) == to {
            m.color[id]
        } else if (r, c) == from {
            Cell::Empty
        } else {
            m.cell_at(r, c)
        } by {
        if in_grid(m.rows, m.cols, r, c) {
            lemma_index_bounds(m.rows, m.cols, r, c);
            lemma_index_order(m.cols, (r, c), to);
            lemma_index_order(m.cols, (r, c), from);
        }
    }
}

/// A move only exchanges the contents of two cells: the number of cells of each kind
/// is unchanged.
pub proof fn lemma_move_keeps_census(m: WorldModel, id: int, to: (int, int))
    requires
        m.wf(),
        0 <= id < m.n_agents(),
        m.vacant(to),
    ensures
        m.apply_move(id, to).grid_cells().to_multiset() == m.grid_cells().to_multiset(),
{
    broadcast use vstd::seq_lib::to_multiset_update;
    broadcast use vstd::multiset::group_multiset_axioms;

    lemma_apply_move(m, id, to);
    lemma_vacant_unoccupied(m, to);
    let from = m.pos(id);
    let ifr = cell_index(m.cols, from.0, from.1);
    let it = cell_index(m.cols, to.0, to.1);
    lemma_index_bounds(m.rows, m.cols, to.0, to.1);
    lemma_index_bounds(m.rows, m.cols, from.0, from.1);
    let g = m.grid_cells();
    let g1 = g.update(ifr, Cell::Empty);
    let g2 = g1.update(it, m.color[id]);
    assert(m.apply_move(id, to).grid_cells() =~= g2);
    assert(g[ifr] == m.color[id]);
    assert(g1[it] == Cell::Empty);
    vstd::seq_lib::to_multiset_update(g, ifr, Cell::Empty);
    vstd::seq_lib::to_multiset_update(g1, it, m.color[id]);
    vstd::seq_lib::to_multiset_contains(g, m.color[id]);
    assert(g.contains(m.color[id]));
    let c = m.color[id];
    let e = Cell::Empty;
    let mg = g.to_multiset();
    assert(mg.count(c) >= 1);
    assert(g1.to_multiset() == mg.insert(e).remove(c));
    assert(g1.to_multiset().count(e) >= 1);
    assert(g2.to_multiset() == g1.to_multiset().insert(c).remove(e));
    assert forall|x: Cell| g2.to_multiset().count(x) == mg.count(x) by {}
    assert(g2.to_multiset() =~= g.to_multiset());
}

/// Neighbour counts at the destination right after a move are those that were predicted
/// before it, with the origin taken as vacant.
pub proof fn lemma_counts_after_move(m: WorldModel, id: int, to: (int, int), agent: Cell)
    requires
        m.wf(),
        0 <= id < m.n_agents(),
        m.vacant(to),
    ensures
        m.apply_move(id, to).occ_around(to.0, to.1, None) == m.occ_around(to.0, to.1, Some(m.pos(id))),
        m.apply_move(id, to).same_around(to.0, to.1, agent, None) == m.same_around(
            to.0,
            to.1,
            agent,
            Some(m.pos(id)),
        ),
{
    lemma_apply_move(m, id, to);
    let m2 = m.apply_move(id, to);
    let from = m.pos(id);
    let (r, c) = to;
    assert forall|x: int, y: int|
        (x, y) != to implies #[trigger] m2.seen(x, y, None) == m.seen(x, y, Some(from)) by {
        assert(m2.cell_at(x, y) == if (x, y) == to {
            m.color[id]
        } else if (x, y) == from {
            Cell::Empty
        } else {
            m.cell_at(x, y)
        });
    }
    assert(m2.seen(r - 1, c - 1, None) == m.seen(r - 1, c - 1, Some(from)));
    assert(m2.seen(r - 1, c, None) == m.seen(r - 1, c, Some(from)));
    assert(m2.seen(r - 1, c + 1, None) == m.seen(r - 1, c + 1, Some(from)));
    assert(m2.seen(r, c - 1, None) == m.seen(r, c - 1, Some(from)));
    assert(m2.seen(r, c + 1, None) == m.seen(r, c + 1, Some(from)));
    assert(m2.seen(r + 1, c - 1, None) == m.seen(r + 1, c - 1, Some(from)));
    assert(m2.seen(r + 1, c, None) == m.seen(r + 1, c, Some(from)));
    assert(m2.seen(r + 1, c + 1, None) == m.seen(r + 1, c + 1, Some(from)));
}

/// An agent that moves to a vacant cell where it was predicted to be satisfied is
/// satisfied there right after the move, and its same-colour share there is the one
/// that was predicted.
pub proof fn lemma_move_lands_as_predicted(m: WorldModel, id: int, to: (int, int))
    requires
        m.wf(),
        0 <= id < m.n_agents(),
        m.vacant(to),
    ensures
        m.apply_move(id, to).neighbor_counts(to.0, to.1) == m.counts_after_move(m.pos(id), to),
        m.apply_move(id, to).current_share(to.0, to.1) == m.share_after_move(m.pos(id), to),
        m.apply_move(id, to).satisfied(to.0, to.1) == m.sat_after_move(m.pos(id), to),
{
    lemma_apply_move(m, id, to);
    lemma_cell_of_agent(m, id);
    let m2 = m.apply_move(id, to);
    assert(m2.cell_at(to.0, to.1) == m.color[id]);
    lemma_counts_after_move(m, id, to, m.color[id]);
}


/// Fractions with positive denominators are totally and transitively ordered.
pub proof fn lemma_frac_order(a: (int, int), b: (int, int), c: (int, int))
    requires
        a.1 > 0,
        b.1 > 0,
        c.1 > 0,
    ensures
        frac_lt(a, b) || frac_eq(a, b) || frac_lt(b, a),
        !(frac_lt(a, b) && frac_lt(b, a)),
        !(frac_lt(a, b) && frac_eq(a, b)),
        frac_lt(a, b) && frac_lt(b, c) ==> frac_lt(a, c),
        frac_lt(a, b) && frac_eq(b, c) ==> frac_lt(a, c),
        frac_eq(a, b) && frac_lt(b, c) ==> frac_lt(a, c),
        frac_eq(a, b) && frac_eq(b, c) ==> frac_eq(a, c),
        frac_eq(a, b) ==> frac_eq(b, a),
{
    let (x, p) = a;
    let (y, q) = b;
    let (z, w) = c;
    assert(x * q < y * p && y * w < z * q ==> x * w < z * p) by (nonlinear_arith)
        requires
            p > 0,
            q > 0,
            w > 0,
    ;
    assert(x * q < y * p && y * w == z * q ==> x * w < z * p) by (nonlinear_arith)
        requires
            p > 0,
            q > 0,
            w > 0,
    ;
    assert(x * q == y * p && y * w < z * q ==> x * w < z * p) by (nonlinear_arith)
        requires
            p > 0,
            q > 0,
            w > 0,
    ;
    assert(x * q == y * p && y * w == z * q ==> x * w == z * p) by (nonlinear_arith)
        requires
            p > 0,
            q > 0,
            w > 0,
    ;
}

/// Products of neighbour counts stay small.
pub proof fn lemma_small_product(a: int, b: int)
    requires
        0 <= a <= 8,
        0 <= b <= 8,
    ensures
        0 <= a * b <= 64,
{
    assert(0 <= a * b <= 64) by (nonlinear_arith)
        requires
            0 <= a <= 8,
            0 <= b <= 8,
    ;
}

pub open spec fn opt_int_pair(p: Option<(usize, usize)>) -> Option<(int, int)> {
    match p {
        Some(v) => Some(as_int_pair(v)),
        None => None,
    }
}

/// Scanning cells in row-major order up to (excluding) `upto`, `best` is the nearest
/// move candidate seen so far.
pub open spec fn nearest_so_far(m: WorldModel, from: (int, int), best: Option<(int, int)>, upto: (int, int)) -> bool {
    match best {
        None => forall|u: (int, int)| #[trigger] m.move_candidate(from, u) ==> !row_major_lt(u, upto),
        Some(b) => {
            &&& m.move_candidate(from, b)
            &&& row_major_lt(b, upto)
            &&& forall|u: (int, int)|
                #[trigger] m.move_candidate(from, u) && row_major_lt(u, upto) && u != b ==> closer(from, b, u)
        },
    }
}

pub open spec fn best_local_so_far(m: WorldModel, from: (int, int), best: Option<(int, int)>, upto: (int, int)) -> bool {
    match best {
        None => forall|u: (int, int)| #[trigger] m.move_candidate(from, u) ==> !row_major_lt(u, upto),
        Some(b) => {
            &&& m.move_candidate(from, b)
            &&& row_major_lt(b, upto)
            &&& forall|u: (int, int)|
                #[trigger] m.move_candidate(from, u) && row_major_lt(u, upto) && u != b
                    ==> m.better_local(from, b, u)
        },
    }
}

pub open spec fn speculative_so_far(m: WorldModel, from: (int, int), best: Option<(int, int)>, upto: (int, int)) -> bool {
    match best {
        None => forall|u: (int, int)| #[trigger] m.speculative_candidate(from, u) ==> !row_major_lt(u, upto),
        Some(b) => {
            &&& m.speculative_candidate(from, b)
            &&& row_major_lt(b, upto)
            &&& forall|u: (int, int)|
                #[trigger] m.speculative_candidate(from, u) && row_major_lt(u, upto) && u != b ==> closer(from, b, u)
        },
    }
}

/// Chebyshev distance between two cells.
pub fn chebyshev_distance(a: (usize, usize), b: (usize, usize)) -> (d: usize)
    ensures
        d == chebyshev(as_int_pair(a), as_int_pair(b)),
{
    let dr = if a.0 >= b.0 { a.0 - b.0 } else { b.0 - a.0 };
    let dc = if a.1 >= b.1 { a.1 - b.1 } else { b.1 - a.1 };
    if dr >= dc { dr } else { dc }
}

/// Whether `a` comes before `b` in the scan order from `from`.
fn closer_exec(from: (usize, usize), a: (usize, usize), b: (usize, usize)) -> (res: bool)
    ensures
        res == closer(as_int_pair(from), as_int_pair(a), as_int_pair(b)),
{
    let da = chebyshev_distance(from, a);
    let db = chebyshev_distance(from, b);
    da < db || (da == db && (a.0 < b.0 || (a.0 == b.0 && a.1 < b.1)))
}

/// The spatial world of the segregation model: a `rows` x `cols` lattice with a fixed
/// (non-wrapping) boundary, agents identified by `0..n`, and the rules they follow.
pub struct SchellingWorld {
    rows: usize,
    cols: usize,
    occupant: Vec<Option<usize>>,
    position: Vec<(usize, usize)>,
    color: Vec<Cell>,
    rule: SatisfactionRule,
    move_mode: MoveMode,
    move_strategy: MoveStrategy,
}

/// The occupants, positions and groups of the world built from the first `k` cells of a
/// row-major lattice with `cols` columns, agents numbered in row-major order.
pub open spec fn built_agents(cols: int, cells: Seq<Cell>, k: nat) -> (
    Seq<Option<usize>>,
    Seq<(usize, usize)>,
    Seq<Cell>,
)
    decreases k,
{
    if k == 0 {
        (Seq::empty(), Seq::empty(), Seq::empty())
    } else {
        let prev = built_agents(cols, cells, (k - 1) as nat);
        let i = k - 1;
        if cells[i] == Cell::Empty {
            (prev.0.push(None), prev.1, prev.2)
        } else {
            (
                prev.0.push(Some(prev.1.len() as usize)),
                prev.1.push(((i / cols) as usize, (i % cols) as usize)),
                prev.2.push(cells[i]),
            )
        }
    }
}

/// The world built from a row-major lattice, agents numbered in row-major order.
pub open spec fn built_world(
    rows: int,
    cols: int,
    cells: Seq<Cell>,
    rule: SatisfactionRule,
    move_mode: MoveMode,
    move_strategy: MoveStrategy,
) -> WorldModel {
    let a = built_agents(cols, cells, cells.len());
    WorldModel { rows, cols, occupant: a.0, position: a.1, color: a.2, rule, move_mode, move_strategy }
}

impl View for SchellingWorld {
    type V = WorldModel;

    closed spec fn view(&self) -> WorldModel {
        WorldModel {
            rows: self.rows as int,
            cols: self.cols as int,
            occupant: self.occupant@,
            position: self.position@,
            color: self.color@,
            rule: self.rule,
            move_mode: self.move_mode,
            move_strategy: self.move_strategy,
        }
    }
}

pub open spec fn skip_cell(skip: Option<(usize, usize)>) -> Option<(int, int)> {
    match skip {
        Some(p) => Some((p.0 as int, p.1 as int)),
        None => None,
    }
}

pub open spec fn as_int_pair(p: (usize, usize)) -> (int, int) {
    (p.0 as int, p.1 as int)
}

impl SchellingWorld {
    pub open spec fn wf(&self) -> bool {
        self@.wf()
    }

    /// Number of rows of the lattice.
    pub fn rows(&self) -> (r: usize)
        ensures
            r == self@.rows,
    {
        self.rows
    }

    /// Number of columns of the lattice.
    pub fn cols(&self) -> (c: usize)
        ensures
            c == self@.cols,
    {
        self.cols
    }

    /// The satisfaction rule.
    pub fn rule(&self) -> (r: SatisfactionRule)
        ensures
            r == self@.rule,
    {
        self.rule
    }

    /// The move operation mode (lenient or strict).
    pub fn move_mode(&self) -> (mode: MoveMode)
        ensures
            mode == self@.move_mode,
    {
        self.move_mode
    }

    /// The destination selection strategy.
    pub fn move_strategy(&self) -> (strategy: MoveStrategy)
        ensures
            strategy == self@.move_strategy,
    {
        self.move_strategy
    }

    /// Number of agents.
    pub fn n_agents(&self) -> (n: usize)
        requires
            self.wf(),
        ensures
            n == self@.n_agents(),
    {
        self.color.len()
    }

    fn index(&self, r: usize, c: usize) -> (i: usize)
        requires
            self.wf(),
            in_grid(self@.rows, self@.cols, r as int, c as int),
        ensures
            i == cell_index(self@.cols, r as int, c as int),
            i < self@.occupant.len(),
    {
        proof {
            lemma_index_bounds(self@.rows, self@.cols, r as int, c as int);
            assert(self.occupant@.len() == self.occupant.len());
            assert(r * self.cols <= r * self.cols + c);
        }
        r * self.cols + c
    }

    /// The group of the agent at `(r, c)`; `Empty` for a vacant cell or one outside the grid.
    pub fn cell_color(&self, r: usize, c: usize) -> (cell: Cell)
        requires
            self.wf(),
        ensures
            cell == self@.cell_at(r as int, c as int),
    {
        if r >= self.rows || c >= self.cols {
            return Cell::Empty;
        }
        let i = self.index(r, c);
        match self.occupant[i] {
            Some(id) => {
                proof {
                    assert(self@.occupant[i as int] is Some);
                }
                self.color[id]
            },
            None => Cell::Empty,
        }
    }

    /// The cell of agent `id`, or `None` when there is no such agent.
    pub fn agent_position(&self, id: usize) -> (p: Option<(usize, usize)>)
        requires
            self.wf(),
        ensures
            p == (if (id as int) < self@.n_agents() {
                Some(self@.position[id as int])
            } else {
                None::<(usize, usize)>
            }),
    {
        if id < self.position.len() {
            Some(self.position[id])
        } else {
            None
        }
    }

    /// The group of agent `id` (`Empty` when there is no such agent).
    pub fn agent_color(&self, id: usize) -> (cell: Cell)
        requires
            self.wf(),
        ensures
            cell == (if (id as int) < self@.n_agents() { self@.color[id as int] } else { Cell::Empty }),
    {
        if id < self.color.len() {
            self.color[id]
        } else {
            Cell::Empty
        }
    }

    /// The group seen at neighbour offset `(dr - 1, dc - 1)` of `(r, c)`, with `skip` vacant.
    fn seen_at(&self, r: usize, c: usize, dr: usize, dc: usize, skip: Option<(usize, usize)>) -> (cell: Cell)
        requires
            self.wf(),
            r < self@.rows,
            c < self@.cols,
            dr <= 2,
            dc <= 2,
        ensures
            cell == self@.seen(r + dr - 1, c + dc - 1, skip_cell(skip)),
    {
        if r + dr == 0 || c + dc == 0 {
            return Cell::Empty;
        }
        let nr = r + dr - 1;
        let nc = c + dc - 1;
        match skip {
            Some(p) => {
                if p.0 == nr && p.1 == nc {
                    return Cell::Empty;
                }
            },
            None => {},
        }
        self.cell_color(nr, nc)
    }

    /// Same-colour and occupancy indicators of one neighbour.
    fn indicators(&self, r: usize, c: usize, dr: usize, dc: usize, agent: Cell, skip: Option<(usize, usize)>) -> (res: (usize, usize))
        requires
            self.wf(),
            r < self@.rows,
            c < self@.cols,
            dr <= 2,
            dc <= 2,
        ensures
            res.0 == self@.same_ind(r + dr - 1, c + dc - 1, agent, skip_cell(skip)),
            res.1 == self@.occ_ind(r + dr - 1, c + dc - 1, skip_cell(skip)),
            res.0 <= res.1 <= 1,
    {
        let x = self.seen_at(r, c, dr, dc, skip);
        if x == Cell::Empty {
            (0, 0)
        } else if x == agent {
            (1, 1)
        } else {
            (0, 1)
        }
    }

    /// `(same, occupied)` counts over the Moore neighbours of `(r, c)`, for an agent of
    /// group `agent`, with the cell `skip` taken to be vacant.
    fn counts_around(&self, r: usize, c: usize, agent: Cell, skip: Option<(usize, usize)>) -> (res: (usize, usize))
        requires
            self.wf(),
            r < self@.rows,
            c < self@.cols,
        ensures
            res.0 == self@.same_around(r as int, c as int, agent, skip_cell(skip)),
            res.1 == self@.occ_around(r as int, c as int, skip_cell(skip)),
            res.0 <= res.1 <= 8,
    {
        let a = self.indicators(r, c, 0, 0, agent, skip);
        let b = self.indicators(r, c, 0, 1, agent, skip);
        let d = self.indicators(r, c, 0, 2, agent, skip);
        let e = self.indicators(r, c, 1, 0, agent, skip);
        let f = self.indicators(r, c, 1, 2, agent, skip);
        let g = self.indicators(r, c, 2, 0, agent, skip);
        let h = self.indicators(r, c, 2, 1, agent, skip);
        let k = self.indicators(r, c, 2, 2, agent, skip);
        let same = a.0 + b.0 + d.0 + e.0 + f.0 + g.0 + h.0 + k.0;
        let occ = a.1 + b.1 + d.1 + e.1 + f.1 + g.1 + h.1 + k.1;
        (same, occ)
    }

    /// `(same-colour, occupied)` neighbour counts of the agent at `(r, c)`; `(0, 0)` for
    /// a vacant cell or one outside the grid.
    pub fn neighbor_counts_buf(&self, r: usize, c: usize) -> (res: (usize, usize))
        requires
            self.wf(),
        ensures
            res.0 == self@.neighbor_counts(r as int, c as int).0,
            res.1 == self@.neighbor_counts(r as int, c as int).1,
            res.0 <= res.1 <= 8,
    {
        let agent = self.cell_color(r, c);
        if agent == Cell::Empty {
            return (0, 0);
        }
        self.counts_around(r, c, agent, None)
    }

    /// Same-colour share of the agent at `(r, c)` as `(numerator, denominator)`;
    /// `(1, 1)` when it has no occupied neighbour.
    pub fn same_color_ratio_buf(&self, r: usize, c: usize) -> (res: (usize, usize))
        requires
            self.wf(),
        ensures
            as_int_pair(res) == self@.current_share(r as int, c as int),
            0 < res.1 <= 8,
            res.0 <= res.1,
    {
        let (same, total) = self.neighbor_counts_buf(r, c);
        if total == 0 {
            return (1, 1);
        }
        (same, total)
    }

    /// Whether the agent at `(r, c)` is satisfied under the rule (vacant cells are).
    pub fn is_satisfied_buf(&self, r: usize, c: usize) -> (res: bool)
        requires
            self.wf(),
        ensures
            res == self@.satisfied(r as int, c as int),
    {
        if self.cell_color(r, c) == Cell::Empty {
            return true;
        }
        let (same, total) = self.neighbor_counts_buf(r, c);
        self.rule.evaluate(same, total)
    }

    /// Whether the agent at `(r, c)` has an occupied neighbour of the other group, that
    /// is, whether not all of its occupied neighbours share its group.
    pub fn has_opposite_neighbor_buf(&self, r: usize, c: usize) -> (res: bool)
        requires
            self.wf(),
        ensures
            res == (self@.cell_at(r as int, c as int) != Cell::Empty && self@.neighbor_counts(
                r as int,
                c as int,
            ).0 < self@.neighbor_counts(r as int, c as int).1),
    {
        let (same, total) = self.neighbor_counts_buf(r, c);
        self.cell_color(r, c) != Cell::Empty && same < total
    }

    /// `(same, occupied)` counts at `to` for the agent at `from`, as if it had moved.
    fn counts_after_move(&self, from: (usize, usize), to: (usize, usize)) -> (res: (usize, usize))
        requires
            self.wf(),
            in_grid(self@.rows, self@.cols, to.0 as int, to.1 as int),
        ensures
            as_int_pair(res) == self@.counts_after_move(as_int_pair(from), as_int_pair(to)),
            res.0 <= res.1 <= 8,
    {
        let agent = self.cell_color(from.0, from.1);
        self.counts_around(to.0, to.1, agent, Some(from))
    }

    /// Whether the agent at `from` would be satisfied at `to`: neighbours of `to` are
    /// counted with `from` taken as vacant.
    pub fn will_be_satisfied_after_move_buf(&self, from: (usize, usize), to: (usize, usize)) -> (res: bool)
        requires
            self.wf(),
            in_grid(self@.rows, self@.cols, to.0 as int, to.1 as int),
        ensures
            res == self@.sat_after_move(as_int_pair(from), as_int_pair(to)),
    {
        let (same, total) = self.counts_after_move(from, to);
        self.rule.evaluate(same, total)
    }

    /// Same-colour share the agent at `from` would have at `to`, as
    /// `(numerator, denominator)`; `(1, 1)` without occupied neighbours.
    pub fn ratio_after_move_buf(&self, from: (usize, usize), to: (usize, usize)) -> (res: (usize, usize))
        requires
            self.wf(),
            in_grid(self@.rows, self@.cols, to.0 as int, to.1 as int),
        ensures
            as_int_pair(res) == self@.share_after_move(as_int_pair(from), as_int_pair(to)),
            0 < res.1 <= 8,
            res.0 <= res.1,
    {
        let (same, total) = self.counts_after_move(from, to);
        if total == 0 {
            return (1, 1);
        }
        (same, total)
    }

    /// Moves agent `id` to the vacant cell `to`.
    pub fn move_agent(&mut self, id: usize, to: (usize, usize))
        requires
            old(self).wf(),
            (id as int) < old(self)@.n_agents(),
            old(self)@.vacant(as_int_pair(to)),
        ensures
            final(self).wf(),
            final(self)@ == old(self)@.apply_move(id as int, as_int_pair(to)),
    {
        proof {
            lemma_apply_move(self@, id as int, as_int_pair(to));
            lemma_cell_of_agent(self@, id as int);
        }
        let from = self.position[id];
        let i_from = self.index(from.0, from.1);
        let i_to = self.index(to.0, to.1);
        self.occupant.set(i_from, None);
        self.occupant.set(i_to, Some(id));
        self.position.set(id, to);
        proof {
            assert(self@ =~= old(self)@.apply_move(id as int, as_int_pair(to)));
        }
    }

    /// The lattice as a row-major sequence of cells.
    pub fn cells(&self) -> (out: Vec<Cell>)
        requires
            self.wf(),
        ensures
            out@ == self@.grid_cells(),
            out@.len() == self@.rows * self@.cols,
            forall|r: int, c: int|
                in_grid(self@.rows, self@.cols, r, c) ==> out@[cell_index(self@.cols, r, c)]
                    == self@.cell_at(r, c),
    {
        let mut out: Vec<Cell> = Vec::new();
        let n = self.occupant.len();
        let mut i: usize = 0;
        while i < n
            invariant
                self.wf(),
                n == self@.occupant.len(),
                i <= n,
                out@.len() == i,
                forall|j: int|
                    0 <= j < i ==> out@[j] == match self@.occupant[j] {
                        Some(id) => self@.color[id as int],
                        None => Cell::Empty,
                    },
            decreases n - i,
        {
            let cell = match self.occupant[i] {
                Some(id) => {
                    proof {
                        assert(self@.occupant[i as int] is Some);
                    }
                    self.color[id]
                },
                None => Cell::Empty,
            };
            out.push(cell);
            i = i + 1;
        }
        proof {
            assert(out@ =~= self@.grid_cells());
            assert forall|r: int, c: int|
                in_grid(self@.rows, self@.cols, r, c) implies out@[cell_index(self@.cols, r, c)]
                    == self@.cell_at(r, c) by {
                lemma_index_bounds(self@.rows, self@.cols, r, c);
            }
        }
        out
    }

    /// Builds the world from a row-major lattice of cells, numbering the agents
    /// `0, 1, ...` in row-major order of their cells.
    pub fn with_modes(
        rows: usize,
        cols: usize,
        cells: &Vec<Cell>,
        rule: SatisfactionRule,
        move_mode: MoveMode,
        move_strategy: MoveStrategy,
    ) -> (w: SchellingWorld)
        requires
            cells@.len() == rows * cols,
            rows < usize::MAX,
            cols < usize::MAX,
        ensures
            w.wf(),
            w@.rows == rows,
            w@.cols == cols,
            w@.rule == rule,
            w@.move_mode == move_mode,
            w@.move_strategy == move_strategy,
            forall|r: int, c: int|
                in_grid(rows as int, cols as int, r, c) ==> #[trigger] w@.cell_at(r, c)
                    == cells@[cell_index(cols as int, r, c)],
            w@.grid_cells() == cells@,
            w@.n_agents() <= cells@.len(),
            forall|a: int, b: int|
                0 <= a < b < w@.n_agents() ==> row_major_lt(w@.pos(a), w@.pos(b)),
            w@ == built_world(rows as int, cols as int, cells@, rule, move_mode, move_strategy),
    {
        let n = cells.len();
        let mut occupant: Vec<Option<usize>> = Vec::new();
        let mut position: Vec<(usize, usize)> = Vec::new();
        let mut color: Vec<Cell> = Vec::new();
        let mut i: usize = 0;
        let mut r: usize = 0;
        let mut c: usize = 0;
        while i < n
            invariant
                n == cells@.len(),
                n == rows * cols,
                rows < usize::MAX,
                cols < usize::MAX,
                i <= n,
                i == cell_index(cols as int, r as int, c as int),
                c < cols || (cols == 0 && c == 0),
                (occupant@, position@, color@) == built_agents(cols as int, cells@, i as nat),
                occupant@.len() == i,
                position@.len() == color@.len(),
                color@.len() <= i,
                forall|id: int|
                    0 <= id < position@.len() ==> {
                        let p = #[trigger] position@[id];
                        &&& in_grid(rows as int, cols as int, p.0 as int, p.1 as int)
                        &&& cell_index(cols as int, p.0 as int, p.1 as int) < i
                        &&& occupant@[cell_index(cols as int, p.0 as int, p.1 as int)] == Some(id as usize)
                        &&& color@[id] != Cell::Empty
                        &&& color@[id] == cells@[cell_index(cols as int, p.0 as int, p.1 as int)]
                    },
                forall|j: int|
                    0 <= j < i ==> match #[trigger] occupant@[j] {
                        Some(id) => (id as int) < position@.len() && cell_index(
                            cols as int,
                            position@[id as int].0 as int,
                            position@[id as int].1 as int,
                        ) == j,
                        None => cells@[j] == Cell::Empty,
                    },
                forall|a: int, b: int|
                    0 <= a < b < position@.len() ==> cell_index(
                        cols as int,
                        position@[a].0 as int,
                        position@[a].1 as int,
                    ) < cell_index(cols as int, position@[b].0 as int, position@[b].1 as int),
            decreases n - i,
        {
            proof {
                if r >= rows {
                    assert(r * cols + c >= rows * cols) by (nonlinear_arith)
                        requires
                            r >= rows,
                            c >= 0,
                            cols >= 0,
                    ;
                }
            }
            proof {
                vstd::arithmetic::div_mod::lemma_fundamental_div_mod_converse_div(i as int, cols as int, r as int, c as int);
                vstd::arithmetic::div_mod::lemma_fundamental_div_mod_converse_mod(i as int, cols as int, r as int, c as int);
            }
            let cell = cells[i];
            let ghost old_pos = position@;
            let ghost old_occ = occupant@;
            let ghost old_col = color@;
            if cell == Cell::Empty {
                occupant.push(None);
            } else {
                let id = position.len();
                occupant.push(Some(id));
                position.push((r, c));
                color.push(cell);
            }
            proof {
                assert((occupant@, position@, color@) == built_agents(cols as int, cells@, (i + 1) as nat));
                assert(occupant@[i as int] == (if cell == Cell::Empty { None } else { Some((position@.len() - 1) as usize) }));
                assert(in_grid(rows as int, cols as int, r as int, c as int));
                assert forall|id: int| 0 <= id < position@.len() implies {
                    let p = #[trigger] position@[id];
                    &&& in_grid(rows as int, cols as int, p.0 as int, p.1 as int)
                    &&& cell_index(cols as int, p.0 as int, p.1 as int) < i + 1
                    &&& occupant@[cell_index(cols as int, p.0 as int, p.1 as int)] == Some(id as usize)
                    &&& color@[id] != Cell::Empty
                    &&& color@[id] == cells@[cell_index(cols as int, p.0 as int, p.1 as int)]
                } by {
                    if id < old_pos.len() {
                        assert(old_pos[id] == position@[id]);
                        let p = old_pos[id];
                        assert(occupant@[cell_index(cols as int, p.0 as int, p.1 as int)] == old_occ[cell_index(cols as int, p.0 as int, p.1 as int)]);
                    }
                }
            }
            i = i + 1;
            if c + 1 == cols {
                proof {
                    assert((r + 1) * cols == r * cols + cols) by (nonlinear_arith);
                }
                r = r + 1;
                c = 0;
            } else {
                c = c + 1;
            }
        }
        let w = SchellingWorld { rows, cols, occupant, position, color, rule, move_mode, move_strategy };
        proof {
            let m = w@;
            assert forall|id: int| 0 <= id < m.n_agents() implies {
                &&& in_grid(m.rows, m.cols, #[trigger] m.pos(id).0, m.pos(id).1)
                &&& m.occupant[cell_index(m.cols, m.pos(id).0, m.pos(id).1)] == Some(id as usize)
                &&& m.color[id] != Cell::Empty
            } by {
                let p = w.position@[id];
                assert(in_grid(rows as int, cols as int, p.0 as int, p.1 as int));
            }
            assert forall|r2: int, c2: int|
                in_grid(rows as int, cols as int, r2, c2) implies #[trigger] m.cell_at(r2, c2)
                    == cells@[cell_index(cols as int, r2, c2)] by {
                lemma_index_bounds(rows as int, cols as int, r2, c2);
                let j = cell_index(cols as int, r2, c2);
                assert(w.occupant@[j] == m.occupant[j]);
                match m.occupant[j] {
                    Some(id) => {
                        let p = w.position@[id as int];
                        assert(cell_index(cols as int, p.0 as int, p.1 as int) == j);
                    },
                    None => {},
                }
            }
            assert forall|a: int, b: int| 0 <= a < b < m.n_agents() implies row_major_lt(m.pos(a), m.pos(b)) by {
                let pa = w.position@[a];
                let pb = w.position@[b];
                assert(in_grid(rows as int, cols as int, pa.0 as int, pa.1 as int));
                assert(in_grid(rows as int, cols as int, pb.0 as int, pb.1 as int));
                lemma_index_order(cols as int, m.pos(a), m.pos(b));
            }
            assert forall|j: int| 0 <= j < n implies #[trigger] m.grid_cells()[j] == cells@[j] by {
                match m.occupant[j] {
                    Some(id) => {
                        let p = w.position@[id as int];
                        assert(cell_index(cols as int, p.0 as int, p.1 as int) == j);
                    },
                    None => {},
                }
            }
            assert(m.grid_cells() =~= cells@);
        }
        w
    }

    /// Builds the world with lenient operation and the nearest-cell strategy.
    pub fn new(rows: usize, cols: usize, cells: &Vec<Cell>, rule: SatisfactionRule) -> (w: SchellingWorld)
        requires
            cells@.len() == rows * cols,
            rows < usize::MAX,
            cols < usize::MAX,
        ensures
            w.wf(),
            w@.rows == rows,
            w@.cols == cols,
            w@.rule == rule,
            w@.move_mode == MoveMode::Standard,
            w@.move_strategy == MoveStrategy::Nearest,
            forall|r: int, c: int|
                in_grid(rows as int, cols as int, r, c) ==> #[trigger] w@.cell_at(r, c)
                    == cells@[cell_index(cols as int, r, c)],
            w@.grid_cells() == cells@,
            w@.n_agents() <= cells@.len(),
            forall|a: int, b: int|
                0 <= a < b < w@.n_agents() ==> row_major_lt(w@.pos(a), w@.pos(b)),
    {
        Self::with_modes(rows, cols, cells, rule, MoveMode::Standard, MoveStrategy::Nearest)
    }

    /// Builds the world with the given move mode and the nearest-cell strategy.
    pub fn with_move_mode(
        rows: usize,
        cols: usize,
        cells: &Vec<Cell>,
        rule: SatisfactionRule,
        move_mode: MoveMode,
    ) -> (w: SchellingWorld)
        requires
            cells@.len() == rows * cols,
            rows < usize::MAX,
            cols < usize::MAX,
        ensures
            w.wf(),
            w@.rows == rows,
            w@.cols == cols,
            w@.rule == rule,
            w@.move_mode == move_mode,
            w@.move_strategy == MoveStrategy::Nearest,
            forall|r: int, c: int|
                in_grid(rows as int, cols as int, r, c) ==> #[trigger] w@.cell_at(r, c)
                    == cells@[cell_index(cols as int, r, c)],
            w@.grid_cells() == cells@,
            w@.n_agents() <= cells@.len(),
            forall|a: int, b: int|
                0 <= a < b < w@.n_agents() ==> row_major_lt(w@.pos(a), w@.pos(b)),
    {
        Self::with_modes(rows, cols, cells, rule, move_mode, MoveStrategy::Nearest)
    }

    /// Whether `v` is a vacant cell where the agent at `from` would be satisfied.
    fn is_move_candidate(&self, from: (usize, usize), v: (usize, usize)) -> (res: bool)
        requires
            self.wf(),
            in_grid(self@.rows, self@.cols, v.0 as int, v.1 as int),
        ensures
            res == self@.move_candidate(as_int_pair(from), as_int_pair(v)),
    {
        self.cell_color(v.0, v.1) == Cell::Empty && self.will_be_satisfied_after_move_buf(from, v)
    }

    /// The nearest-cell destination: the first satisfying vacant cell in ascending
    /// Chebyshev distance from `from`, ties in row-major order.
    fn nearest_vacant(&self, from: (usize, usize)) -> (res: Option<(usize, usize)>)
        requires
            self.wf(),
        ensures
            opt_int_pair(res) == self@.nearest_target(as_int_pair(from)),
            res is None <==> forall|u: (int, int)| !self@.move_candidate(as_int_pair(from), u),
    {
        let ghost m = self@;
        let ghost f = as_int_pair(from);
        let mut best: Option<(usize, usize)> = None;
        let mut r: usize = 0;
        while r < self.rows
            invariant
                self.wf(),
                m == self@,
                f == as_int_pair(from),
                r <= self@.rows,
                nearest_so_far(m, f, opt_int_pair(best), (r as int, 0)),
            decreases self@.rows - r,
        {
            let mut c: usize = 0;
            while c < self.cols
                invariant
                    self.wf(),
                    m == self@,
                    f == as_int_pair(from),
                    r < self@.rows,
                    c <= self@.cols,
                    nearest_so_far(m, f, opt_int_pair(best), (r as int, c as int)),
                decreases self@.cols - c,
            {
                let v = (r, c);
                let ghost old_best = opt_int_pair(best);
                let cand = self.is_move_candidate(from, v);
                let take = if !cand {
                    false
                } else {
                    match best {
                        None => true,
                        Some(b) => {
                            let t = closer_exec(from, v, b);
                            assert(t == closer(f, as_int_pair(v), as_int_pair(b)));
                            assert(old_best == Some(as_int_pair(b)));
                            t
                        },
                    }
                };
                if take {
                    best = Some(v);
                }
                proof {
                    assert(take == (cand && match old_best {
                        None => true,
                        Some(ob) => closer(f, as_int_pair(v), ob),
                    }));
                    let vi = as_int_pair(v);
                    let nxt = (r as int, c + 1);
                    assert forall|u: (int, int)| #[trigger] m.move_candidate(f, u) implies (
                        row_major_lt(u, nxt) <==> (row_major_lt(u, vi) || u == vi)) by {}
                    match opt_int_pair(best) {
                        Some(nb) => {
                            assert forall|u: (int, int)|
                                #[trigger] m.move_candidate(f, u) && row_major_lt(u, nxt) && u != nb
                                    implies closer(f, nb, u) by {
                                if u != vi {
                                    assert(row_major_lt(u, vi));
                                    match old_best {
                                        Some(ob) => {
                                            if u != ob {
                                                assert(closer(f, ob, u));
                                            }
                                            if nb == vi {
                                                assert(closer(f, vi, ob));
                                            } else {
                                                assert(nb == ob);
                                            }
                                        },
                                        None => {
                                            assert(false);
                                        },
                                    }
                                } else {
                                    match old_best {
                                        Some(ob) => {
                                            assert(nb == ob);
                                            assert(row_major_lt(ob, vi));
                                            assert(!closer(f, vi, ob));
                                        },
                                        None => {
                                            assert(false);
                                        },
                                    }
                                }
                            }
                        },
                        None => {},
                    }
                }
                c = c + 1;
            }
            proof {
                assert forall|u: (int, int)| #[trigger] m.move_candidate(f, u) implies (
                    row_major_lt(u, (r as int, self@.cols)) <==> row_major_lt(u, (r + 1, 0))) by {}
            }
            r = r + 1;
        }
        proof {
            assert forall|u: (int, int)| #[trigger] m.move_candidate(f, u) implies row_major_lt(
                u,
                (self@.rows, 0),
            ) by {}
            match opt_int_pair(best) {
                Some(b) => {
                    assert(m.is_nearest(f, b));
                    assert forall|v: (int, int)| m.is_nearest(f, v) implies v == b by {
                        if v != b {
                            assert(m.move_candidate(f, v));
                            assert(closer(f, b, v));
                            assert(closer(f, v, b));
                        }
                    }
                },
                None => {
                    assert forall|v: (int, int)| !m.is_nearest(f, v) by {
                        if m.is_nearest(f, v) {
                            assert(m.move_candidate(f, v));
                        }
                    }
                },
            }
        }
        best
    }

    /// The best-local destination: among satisfying vacant cells, one with the largest
    /// same-colour share after the move, ties broken by distance from `from`, then
    /// row-major order.
    fn best_local_vacant(&self, from: (usize, usize)) -> (res: Option<(usize, usize)>)
        requires
            self.wf(),
        ensures
            opt_int_pair(res) == self@.best_local_target(as_int_pair(from)),
            res is None <==> forall|u: (int, int)| !self@.move_candidate(as_int_pair(from), u),
    {
        let ghost m = self@;
        let ghost f = as_int_pair(from);
        let mut best: Option<(usize, usize)> = None;
        let mut best_share: (usize, usize) = (1, 1);
        let mut r: usize = 0;
        while r < self.rows
            invariant
                self.wf(),
                m == self@,
                f == as_int_pair(from),
                r <= self@.rows,
                best_local_so_far(m, f, opt_int_pair(best), (r as int, 0)),
                best matches Some(b) ==> as_int_pair(best_share) == m.share_after_move(f, as_int_pair(b)),
                best_share.0 <= 8,
                best_share.1 <= 8,
            decreases self@.rows - r,
        {
            let mut c: usize = 0;
            while c < self.cols
                invariant
                    self.wf(),
                    m == self@,
                    f == as_int_pair(from),
                    r < self@.rows,
                    c <= self@.cols,
                    best_local_so_far(m, f, opt_int_pair(best), (r as int, c as int)),
                    best matches Some(b) ==> as_int_pair(best_share) == m.share_after_move(f, as_int_pair(b)),
                best_share.0 <= 8,
                best_share.1 <= 8,
                decreases self@.cols - c,
            {
                let v = (r, c);
                let ghost old_best = opt_int_pair(best);
                let cand = self.is_move_candidate(from, v);
                let mut v_share: (usize, usize) = (1, 1);
                let take = if !cand {
                    false
                } else {
                    v_share = self.ratio_after_move_buf(from, v);
                    match best {
                        None => true,
                        Some(b) => {
                            proof {
                                lemma_small_product(v_share.0 as int, best_share.1 as int);
                                lemma_small_product(best_share.0 as int, v_share.1 as int);
                            }
                            let lhs = v_share.0 * best_share.1;
                            let rhs = best_share.0 * v_share.1;
                            lhs > rhs || (lhs == rhs && closer_exec(from, v, b))
                        },
                    }
                };
                if take {
                    best = Some(v);
                    best_share = v_share;
                }
                proof {
                    let vi = as_int_pair(v);
                    let nxt = (r as int, c + 1);
                    assert(take == (cand && match old_best {
                        None => true,
                        Some(ob) => m.better_local(f, vi, ob),
                    }));
                    assert forall|u: (int, int)| #[trigger] m.move_candidate(f, u) implies (
                        row_major_lt(u, nxt) <==> (row_major_lt(u, vi) || u == vi)) by {}
                    match opt_int_pair(best) {
                        Some(nb) => {
                            assert forall|u: (int, int)|
                                #[trigger] m.move_candidate(f, u) && row_major_lt(u, nxt) && u != nb
                                    implies m.better_local(f, nb, u) by {
                                let su = m.share_after_move(f, u);
                                let sv = m.share_after_move(f, vi);
                                match old_best {
                                    Some(ob) => {
                                        let so = m.share_after_move(f, ob);
                                        lemma_frac_order(su, so, sv);
                                        lemma_frac_order(sv, so, su);
                                        lemma_frac_order(so, sv, su);
                                        lemma_frac_order(su, sv, so);
                                        if u != vi {
                                            assert(row_major_lt(u, vi));
                                            if u != ob {
                                                assert(m.better_local(f, ob, u));
                                            }
                                        }
                                    },
                                    None => {
                                        if u != vi {
                                            assert(row_major_lt(u, vi));
                                        }
                                    },
                                }
                            }
                        },
                        None => {},
                    }
                }
                c = c + 1;
            }
            proof {
                assert forall|u: (int, int)| #[trigger] m.move_candidate(f, u) implies (
                    row_major_lt(u, (r as int, self@.cols)) <==> row_major_lt(u, (r + 1, 0))) by {}
            }
            r = r + 1;
        }
        proof {
            assert forall|u: (int, int)| #[trigger] m.move_candidate(f, u) implies row_major_lt(
                u,
                (self@.rows, 0),
            ) by {}
            match opt_int_pair(best) {
                Some(b) => {
                    assert(m.is_best_local(f, b));
                    assert forall|v: (int, int)| m.is_best_local(f, v) implies v == b by {
                        if v != b {
                            assert(m.move_candidate(f, v));
                            lemma_frac_order(m.share_after_move(f, v), m.share_after_move(f, b), m.share_after_move(f, v));
                            assert(m.better_local(f, b, v));
                            assert(m.better_local(f, v, b));
                        }
                    }
                },
                None => {
                    assert forall|v: (int, int)| !m.is_best_local(f, v) by {
                        if m.is_best_local(f, v) {
                            assert(m.move_candidate(f, v));
                        }
                    }
                },
            }
        }
        best
    }

    fn is_speculative_candidate(&self, from: (usize, usize), v: (usize, usize), current: (usize, usize)) -> (res: bool)
        requires
            self.wf(),
            in_grid(self@.rows, self@.cols, v.0 as int, v.1 as int),
            as_int_pair(current) == self@.current_share(from.0 as int, from.1 as int),
            0 < current.1 <= 8,
            current.0 <= current.1,
        ensures
            res == self@.speculative_candidate(as_int_pair(from), as_int_pair(v)),
    {
        if self.cell_color(v.0, v.1) != Cell::Empty {
            return false;
        }
        let after = self.ratio_after_move_buf(from, v);
        proof {
            lemma_small_product(current.0 as int, after.1 as int);
            lemma_small_product(after.0 as int, current.1 as int);
        }
        current.0 * after.1 < after.0 * current.1 && self.will_be_satisfied_after_move_buf(from, v)
    }

    /// The speculative destination under strict operation: the first vacant cell, in
    /// ascending Chebyshev distance from `from` (ties row-major), that strictly raises the
    /// same-colour share of the agent at `from` and where it stays satisfied.
    pub fn best_speculative_vacant(&self, from: (usize, usize)) -> (res: Option<(usize, usize)>)
        requires
            self.wf(),
        ensures
            opt_int_pair(res) == self@.speculative_target(as_int_pair(from)),
            res is None <==> forall|u: (int, int)| !self@.speculative_candidate(as_int_pair(from), u),
    {
        let ghost m = self@;
        let ghost f = as_int_pair(from);
        let current = self.same_color_ratio_buf(from.0, from.1);
        let mut best: Option<(usize, usize)> = None;
        let mut r: usize = 0;
        while r < self.rows
            invariant
                self.wf(),
                m == self@,
                f == as_int_pair(from),
                as_int_pair(current) == m.current_share(f.0, f.1),
                0 < current.1 <= 8,
                current.0 <= current.1,
                r <= self@.rows,
                speculative_so_far(m, f, opt_int_pair(best), (r as int, 0)),
            decreases self@.rows - r,
        {
            let mut c: usize = 0;
            while c < self.cols
                invariant
                    self.wf(),
                    m == self@,
                    f == as_int_pair(from),
                as_int_pair(current) == m.current_share(f.0, f.1),
                0 < current.1 <= 8,
                current.0 <= current.1,
                    r < self@.rows,
                    c <= self@.cols,
                    speculative_so_far(m, f, opt_int_pair(best), (r as int, c as int)),
                decreases self@.cols - c,
            {
                let v = (r, c);
                let ghost old_best = opt_int_pair(best);
                let cand = self.is_speculative_candidate(from, v, current);
                let take = if !cand {
                    false
                } else {
                    match best {
                        None => true,
                        Some(b) => {
                            let t = closer_exec(from, v, b);
                            assert(t == closer(f, as_int_pair(v), as_int_pair(b)));
                            assert(old_best == Some(as_int_pair(b)));
                            t
                        },
                    }
                };
                if take {
                    best = Some(v);
                }
                proof {
                    assert(take == (cand && match old_best {
                        None => true,
                        Some(ob) => closer(f, as_int_pair(v), ob),
                    }));
                    let vi = as_int_pair(v);
                    let nxt = (r as int, c + 1);
                    assert forall|u: (int, int)| #[trigger] m.speculative_candidate(f, u) implies (
                        row_major_lt(u, nxt) <==> (row_major_lt(u, vi) || u == vi)) by {}
                    match opt_int_pair(best) {
                        Some(nb) => {
                            assert forall|u: (int, int)|
                                #[trigger] m.speculative_candidate(f, u) && row_major_lt(u, nxt) && u != nb
                                    implies closer(f, nb, u) by {
                                if u != vi {
                                    assert(row_major_lt(u, vi));
                                    match old_best {
                                        Some(ob) => {
                                            if u != ob {
                                                assert(closer(f, ob, u));
                                            }
                                            if nb == vi {
                                                assert(closer(f, vi, ob));
                                            } else {
                                                assert(nb == ob);
                                            }
                                        },
                                        None => {
                                            assert(false);
                                        },
                                    }
                                } else {
                                    match old_best {
                                        Some(ob) => {
                                            assert(nb == ob);
                                            assert(row_major_lt(ob, vi));
                                            assert(!closer(f, vi, ob));
                                        },
                                        None => {
                                            assert(false);
                                        },
                                    }
                                }
                            }
                        },
                        None => {},
                    }
                }
                c = c + 1;
            }
            proof {
                assert forall|u: (int, int)| #[trigger] m.speculative_candidate(f, u) implies (
                    row_major_lt(u, (r as int, self@.cols)) <==> row_major_lt(u, (r + 1, 0))) by {}
            }
            r = r + 1;
        }
        proof {
            assert forall|u: (int, int)| #[trigger] m.speculative_candidate(f, u) implies row_major_lt(
                u,
                (self@.rows, 0),
            ) by {}
            match opt_int_pair(best) {
                Some(b) => {
                    assert(m.is_speculative(f, b));
                    assert forall|v: (int, int)| m.is_speculative(f, v) implies v == b by {
                        if v != b {
                            assert(m.speculative_candidate(f, v));
                            assert(closer(f, b, v));
                            assert(closer(f, v, b));
                        }
                    }
                },
                None => {
                    assert forall|v: (int, int)| !m.is_speculative(f, v) by {
                        if m.is_speculative(f, v) {
                            assert(m.speculative_candidate(f, v));
                        }
                    }
                },
            }
        }
        best
    }


    /// The destination of a dissatisfied agent at `from` under the world's strategy:
    /// the nearest satisfying vacant cell, or the best-local one.
    pub fn nearest_satisfying_vacant(&self, from: (usize, usize)) -> (res: Option<(usize, usize)>)
        requires
            self.wf(),
        ensures
            opt_int_pair(res) == self@.move_target(as_int_pair(from)),
            res is None <==> forall|u: (int, int)| !self@.move_candidate(as_int_pair(from), u),
    {
        match self.move_strategy {
            MoveStrategy::Nearest => self.nearest_vacant(from),
            MoveStrategy::BestLocal => self.best_local_vacant(from),
        }
    }
}

} // verus!
