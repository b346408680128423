use vstd::prelude::*;

use crate::cell::Cell;
use crate::config::{Config, MoveMode};
use crate::mechanism::{
    count_true, dissatisfied_flags, lemma_converged_is_fixed_point, lemma_step_preserves_agents,
    step_result, stop_rule, SchellingMoveMechanism,
};
use crate::metrics::{samples, MetricCounts};
use crate::rng::{random_seed, seeded_rng, shuffle_indices, shuffle_outcome, SimRng};
use crate::world::{built_world, row_major_lt, SchellingWorld, WorldModel};

verus! {

/// `0, 1, ..., n - 1`.
pub open spec fn index_range(n: nat) -> Seq<usize> {
    Seq::new(n, |i: int| i as usize)
}

/// A rearrangement of `0..n` holds each index once.
proof fn lemma_permutation_of_range(p: Seq<usize>, n: nat)
    requires
        n <= usize::MAX + 1,
        p.to_multiset() == index_range(n).to_multiset(),
    ensures
        p.len() == n,
        p.no_duplicates(),
        forall|i: int| 0 <= i < p.len() ==> (p[i] as int) < n,
{
    broadcast use vstd::seq_lib::group_to_multiset_ensures;

    let q = index_range(n);
    vstd::seq_lib::to_multiset_len(p);
    vstd::seq_lib::to_multiset_len(q);
    assert(q.no_duplicates());
    q.lemma_multiset_has_no_duplicates();
    assert forall|x: usize| p.to_multiset().contains(x) implies p.to_multiset().count(x) == 1 by {}
    p.lemma_multiset_has_no_duplicates_conv();
    assert forall|i: int| 0 <= i < p.len() implies (p[i] as int) < n by {
        assert(p.contains(p[i]));
        assert(q.to_multiset().contains(p[i]));
        assert(q.contains(p[i]));
    }
}

/// A lattice of `total` cells once the first `k` places listed in `perm` have received
/// their agents: the first `n_a` places an agent of group A, the later ones group B.
pub open spec fn placed_cells(perm: Seq<usize>, total: nat, n_a: nat, k: nat) -> Seq<Cell>
    decreases k,
{
    if k == 0 {
        Seq::new(total, |j: int| Cell::Empty)
    } else {
        placed_cells(perm, total, n_a, (k - 1) as nat).update(
            perm[k - 1] as int,
            if k - 1 < n_a { Cell::GroupA } else { Cell::GroupB },
        )
    }
}

/// The agents of the initial lattice, drawn at random: `n_a` cells of group A and `n_b`
/// of group B at distinct random positions, the rest vacant.  The positions are the cell
/// indices `0..rows * cols` shuffled by the generator: A takes the first `n_a`, B the next
/// `n_b`.
pub fn init_cells(rows: usize, cols: usize, n_a: usize, n_b: usize, rng: &mut SimRng) -> (cells: Vec<Cell>)
    requires
        rows * cols <= usize::MAX,
        n_a + n_b <= rows * cols,
    ensures
        cells@ == placed_cells(
            shuffle_outcome(old(rng)@.0, old(rng)@.1, index_range((rows * cols) as nat)),
            (rows * cols) as nat,
            n_a as nat,
            (n_a + n_b) as nat,
        ),
        final(rng)@ == (old(rng)@.0, old(rng)@.1.push((rows * cols) as nat)),
        cells@.len() == rows * cols,
        cells@.to_multiset().count(Cell::GroupA) == n_a,
        cells@.to_multiset().count(Cell::GroupB) == n_b,
        cells@.to_multiset().count(Cell::Empty) == rows * cols - n_a - n_b,
{
    broadcast use vstd::seq_lib::group_to_multiset_ensures;
    broadcast use vstd::seq_lib::to_multiset_update;
    broadcast use vstd::multiset::group_multiset_axioms;

    let total = rows * cols;
    let mut positions: Vec<usize> = Vec::new();
    let mut cells: Vec<Cell> = Vec::new();
    let mut i: usize = 0;
    while i < total
        invariant
            i <= total,
            positions@ == index_range(i as nat),
            cells@.len() == i,
            forall|j: int| 0 <= j < i ==> cells@[j] == Cell::Empty,
        decreases total - i,
    {
        positions.push(i);
        cells.push(Cell::Empty);
        proof {
            assert(positions@ =~= index_range((i + 1) as nat));
        }
        i = i + 1;
    }
    proof {
        assert(cells@ =~= Seq::new(total as nat, |j: int| Cell::Empty));
        lemma_all_empty_census(cells@);
    }
    let ghost unshuffled = positions@;
    shuffle_indices(&mut positions, rng);
    proof {
        lemma_permutation_of_range(positions@, total as nat);
        assert(cells@ =~= placed_cells(positions@, total as nat, n_a as nat, 0));
    }
    let n_agents = n_a + n_b;
    let mut k: usize = 0;
    while k < n_agents
        invariant
            n_agents == n_a + n_b,
            n_agents <= total,
            k <= n_agents,
            positions@.len() == total,
            positions@.no_duplicates(),
            forall|j: int| 0 <= j < total ==> (positions@[j] as int) < total,
            cells@.len() == total,
            forall|j: int| k <= j < total ==> cells@[positions@[j] as int] == Cell::Empty,
            cells@.to_multiset().count(Cell::GroupA) == (if k <= n_a { k } else { n_a }),
            cells@.to_multiset().count(Cell::GroupB) == (if k <= n_a { 0 } else { (k - n_a) as nat }),
            cells@.to_multiset().count(Cell::Empty) == total - k,
            cells@ == placed_cells(positions@, total as nat, n_a as nat, k as nat),
            positions@ == shuffle_outcome(old(rng)@.0, old(rng)@.1, unshuffled),
            unshuffled == index_range(total as nat),
        decreases n_agents - k,
    {
        let p = positions[k];
        let g = if k < n_a { Cell::GroupA } else { Cell::GroupB };
        let ghost before = cells@;
        cells.set(p, g);
        proof {
            assert(before[p as int] == Cell::Empty);
            assert(cells@ == before.update(p as int, g));
            vstd::seq_lib::to_multiset_update(before, p as int, g);
            assert(cells@.to_multiset() == before.to_multiset().insert(g).remove(Cell::Empty));
            assert(before.to_multiset().count(Cell::Empty) >= 1) by {
                assert(before.contains(Cell::Empty));
            }
            assert(cells@ == placed_cells(positions@, total as nat, n_a as nat, (k + 1) as nat));
            assert forall|j: int| k + 1 <= j < total implies cells@[positions@[j] as int] == Cell::Empty by {
                assert(positions@[j] != positions@[k as int]);
            }
        }
        k = k + 1;
    }
    cells
}

proof fn lemma_all_empty_census(s: Seq<Cell>)
    requires
        forall|j: int| 0 <= j < s.len() ==> s[j] == Cell::Empty,
    ensures
        s.to_multiset().count(Cell::Empty) == s.len(),
        s.to_multiset().count(Cell::GroupA) == 0,
        s.to_multiset().count(Cell::GroupB) == 0,
    decreases s.len(),
{
    broadcast use vstd::seq_lib::group_to_multiset_ensures;
    broadcast use vstd::multiset::group_multiset_axioms;

    if s.len() > 0 {
        lemma_all_empty_census(s.drop_last());
        assert(s =~= s.drop_last().push(s.last()));
    }
}

/// `m` can start a run with `cfg`: the lattice has the size and census of `cfg`, the
/// agents are numbered in row-major order of their cells, and the world follows the
/// rule, mode and strategy of `cfg`.
pub open spec fn initial_world(cfg: Config, m: WorldModel) -> bool {
    &&& m.wf()
    &&& m.rows == cfg.rows
    &&& m.cols == cfg.cols
    &&& m.rule == cfg.rule
    &&& m.move_mode == cfg.move_mode
    &&& m.move_strategy == cfg.move_strategy
    &&& census(m.grid_cells(), cfg.rows * cfg.cols, cfg.n_a as int, cfg.n_b as int)
    &&& forall|a: int, b: int|
        0 <= a < b < m.n_agents() ==> row_major_lt(#[trigger] m.pos(a), #[trigger] m.pos(b))
}

/// `states` are the worlds of a run of `orders.len()` steps: every activation order
/// holds each agent once, and each world follows from the one before by one step of the
/// model under its order.
pub open spec fn steps_follow(states: Seq<WorldModel>, orders: Seq<Seq<usize>>) -> bool {
    &&& states.len() == orders.len() + 1
    &&& forall|k: int|
        0 <= k < orders.len() ==> (#[trigger] orders[k]).to_multiset() == index_range(
            states[0].n_agents() as nat,
        ).to_multiset()
    &&& forall|k: int|
        0 <= k < orders.len() ==> states[k + 1] == step_result(states[k], #[trigger] orders[k]).0
}

/// `record` holds the counts of step `k` of the run through `states` under `orders`:
/// the neighbourhoods of the world after the step, the agents dissatisfied at its start
/// and the agents that moved in it (none before the first step).
pub open spec fn records_step(
    record: MetricCounts,
    states: Seq<WorldModel>,
    orders: Seq<Seq<usize>>,
    k: int,
) -> bool {
    &&& record.step == k
    &&& record.samples_view() == samples(states[k], (states[k].rows * states[k].cols) as nat)
    &&& if k == 0 {
        record.n_dissatisfied == 0 && record.n_moved == 0
    } else {
        &&& record.n_dissatisfied == count_true(dissatisfied_flags(states[k - 1]))
        &&& record.n_moved == step_result(states[k - 1], orders[k - 1]).1
    }
}

/// `history` and `snapshots` are what a run with `cfg` records when it goes through the
/// worlds `states` under the activation orders `orders`.
pub open spec fn run_trace(
    cfg: Config,
    history: Seq<MetricCounts>,
    snapshots: Seq<Snapshot>,
    states: Seq<WorldModel>,
    orders: Seq<Seq<usize>>,
) -> bool {
    &&& initial_world(cfg, states[0])
    &&& steps_follow(states, orders)
    &&& history.len() == states.len()
    &&& forall|k: int| 0 <= k < history.len() ==> records_step(#[trigger] history[k], states, orders, k)
    &&& forall|k: int|
        0 <= k < snapshots.len() ==> (#[trigger] snapshots[k]).step < states.len()
            && snapshots[k].cells@ == states[snapshots[k].step as int].grid_cells()
}

/// The initial world drawn by a generator seeded from `seed` that has shuffled slices of
/// the lengths in `draws` before: the lattice of [`init_cells`] with agents numbered in
/// row-major order, under the rule, mode and strategy of `cfg`.
pub open spec fn start_world(cfg: Config, seed: u64, draws: Seq<nat>) -> WorldModel {
    let total = (cfg.rows * cfg.cols) as nat;
    built_world(
        cfg.rows as int,
        cfg.cols as int,
        placed_cells(
            shuffle_outcome(seed, draws, index_range(total)),
            total,
            cfg.n_a as nat,
            (cfg.n_a + cfg.n_b) as nat,
        ),
        cfg.rule,
        cfg.move_mode,
        cfg.move_strategy,
    )
}

/// Builds the initial world of a run: the random lattice of [`init_cells`], with agents
/// numbered in row-major order and the rule, mode and strategy of `cfg`.
pub fn init_world(cfg: &Config, rng: &mut SimRng) -> (w: SchellingWorld)
    requires
        cfg.rows * cfg.cols <= usize::MAX / 2,
        cfg.rows < usize::MAX,
        cfg.cols < usize::MAX,
        cfg.n_a + cfg.n_b <= cfg.rows * cfg.cols,
    ensures
        w@ == start_world(*cfg, old(rng)@.0, old(rng)@.1),
        final(rng)@ == (old(rng)@.0, old(rng)@.1.push((cfg.rows * cfg.cols) as nat)),
        w.wf(),
        initial_world(*cfg, w@),
        w@.n_agents() <= cfg.rows * cfg.cols,
{
    let cells = init_cells(cfg.rows, cfg.cols, cfg.n_a, cfg.n_b, rng);
    SchellingWorld::with_modes(cfg.rows, cfg.cols, &cells, cfg.rule, cfg.move_mode, cfg.move_strategy)
}

/// The lattice at one step.
#[derive(Clone, Debug)]
pub struct Snapshot {
    pub step: usize,
    /// Row-major cells.
    pub cells: Vec<Cell>,
}

/// The outcome of a run.
#[derive(Clone, Debug)]
pub struct SimulationResult {
    /// The counts of every step, from the initial state (step 0) on.
    pub metrics_history: Vec<MetricCounts>,
    /// The run stopped because nobody was dissatisfied.
    pub converged: bool,
    /// The last step that was run.
    pub final_iteration: usize,
    /// The lattice at step 0 and at every multiple of the snapshot interval.
    pub snapshots: Vec<Snapshot>,
}

/// Steps `0..=last` at which a snapshot is taken: none when `interval` is 0, else step
/// 0 and every multiple of `interval`.
pub open spec fn snapshot_steps(interval: nat, last: nat) -> Seq<int>
    decreases last,
{
    if interval == 0 {
        Seq::empty()
    } else if last == 0 {
        seq![0int]
    } else {
        snapshot_steps(interval, (last - 1) as nat) + if last % interval == 0 {
            seq![last as int]
        } else {
            Seq::empty()
        }
    }
}

pub open spec fn snapshot_step(s: Snapshot) -> int {
    s.step as int
}

/// The census of a lattice: `n_a` cells of group A, `n_b` of group B, the rest vacant.
pub open spec fn census(cells: Seq<Cell>, size: int, n_a: int, n_b: int) -> bool {
    &&& cells.len() == size
    &&& cells.to_multiset().count(Cell::GroupA) == n_a
    &&& cells.to_multiset().count(Cell::GroupB) == n_b
    &&& cells.to_multiset().count(Cell::Empty) == size - n_a - n_b
}

/// Whether the run stopped after step `k` of `history`.
pub open spec fn stopped_at(mode: MoveMode, history: Seq<MetricCounts>, k: int) -> bool {
    stop_rule(mode, history[k].n_dissatisfied == 0, history[k].n_moved as nat)
}

/// The lengths a run's generator has shuffled before step `k + 1` (steps counted from
/// 1): the `total` cells of the lattice, then the `n` agents once per earlier step.
pub open spec fn step_draws(total: nat, n: nat, k: nat) -> Seq<nat> {
    seq![total] + Seq::new(k, |i: int| n)
}

/// The run through `states` under `orders` is the one drawn by the generator seeded from
/// `seed`: it starts from the lattice that generator draws first, and the order of each
/// step is the shuffle of the agents that comes next.
pub open spec fn drawn_from_seed(
    cfg: Config,
    seed: u64,
    states: Seq<WorldModel>,
    orders: Seq<Seq<usize>>,
) -> bool {
    &&& states[0] == start_world(cfg, seed, Seq::empty())
    &&& forall|k: int|
        0 <= k < orders.len() ==> #[trigger] orders[k] == shuffle_outcome(
            seed,
            step_draws((cfg.rows * cfg.cols) as nat, states[0].n_agents() as nat, k as nat),
            index_range(states[0].n_agents() as nat),
        )
}

/// `history` and `snapshots` are those of the run with `cfg` whose generator is seeded
/// from `seed`.
pub open spec fn seeded_run_trace(
    cfg: Config,
    seed: u64,
    history: Seq<MetricCounts>,
    snapshots: Seq<Snapshot>,
    states: Seq<WorldModel>,
    orders: Seq<Seq<usize>>,
) -> bool {
    run_trace(cfg, history, snapshots, states, orders) && drawn_from_seed(cfg, seed, states, orders)
}

/// What a run with `cfg` returns, as far as its records, snapshots, length and
/// convergence go: the stop rule, and, under a given seed, a run drawn from that seed.
pub open spec fn run_outcome(cfg: Config, res: SimulationResult) -> bool {
    &&& res.final_iteration <= cfg.max_iterations
    &&& res.metrics_history@.len() == res.final_iteration + 1
    &&& forall|k: int|
        1 <= k < res.final_iteration ==> !stopped_at(cfg.move_mode, res.metrics_history@, k)
    &&& res.final_iteration < cfg.max_iterations ==> res.final_iteration >= 1 && stopped_at(
        cfg.move_mode,
        res.metrics_history@,
        res.final_iteration as int,
    )
    &&& res.converged == (res.final_iteration >= 1 && stopped_at(
        cfg.move_mode,
        res.metrics_history@,
        res.final_iteration as int,
    ) && res.metrics_history@[res.final_iteration as int].n_dissatisfied == 0)
    &&& res.snapshots@.map_values(|s: Snapshot| snapshot_step(s)) == snapshot_steps(
        cfg.snapshot_interval as nat,
        res.final_iteration as nat,
    )
    &&& exists|s: u64, states: Seq<WorldModel>, orders: Seq<Seq<usize>>|
        #[trigger] seeded_run_trace(cfg, s, res.metrics_history@, res.snapshots@, states, orders)
            && (cfg.seed matches Some(t) ==> s == t)
}

/// Two configurations that differ at most in their output directory (and seed).
pub open spec fn same_parameters(cfg1: Config, cfg2: Config) -> bool {
    &&& cfg1.rows == cfg2.rows
    &&& cfg1.cols == cfg2.cols
    &&& cfg1.n_a == cfg2.n_a
    &&& cfg1.n_b == cfg2.n_b
    &&& cfg1.rule == cfg2.rule
    &&& cfg1.move_mode == cfg2.move_mode
    &&& cfg1.move_strategy == cfg2.move_strategy
    &&& cfg1.max_iterations == cfg2.max_iterations
    &&& cfg1.snapshot_interval == cfg2.snapshot_interval
}

/// Two runs whose worlds start equal and whose first `k` orders are equal agree on their
/// first `k + 1` worlds.
proof fn lemma_prefix_states_agree(
    states1: Seq<WorldModel>,
    orders1: Seq<Seq<usize>>,
    states2: Seq<WorldModel>,
    orders2: Seq<Seq<usize>>,
    k: int,
)
    requires
        steps_follow(states1, orders1),
        steps_follow(states2, orders2),
        states1[0] == states2[0],
        0 <= k < states1.len(),
        k < states2.len(),
        forall|j: int| 0 <= j < k ==> orders1[j] == orders2[j],
    ensures
        states1[k] == states2[k],
    decreases k,
{
    if k > 0 {
        lemma_prefix_states_agree(states1, orders1, states2, orders2, k - 1);
        assert(states1[k] == step_result(states1[k - 1], orders1[k - 1]).0);
        assert(states2[k] == step_result(states2[k - 1], orders2[k - 1]).0);
    }
}

/// A run is reproducible for a given seed: two runs with the same parameters (whatever
/// their output directories) and the same seed stop after the same step, converge alike,
/// record the same counts at every step, and take the same snapshots.
pub proof fn lemma_same_seed_same_run(
    cfg1: Config,
    res1: SimulationResult,
    cfg2: Config,
    res2: SimulationResult,
)
    requires
        run_outcome(cfg1, res1),
        run_outcome(cfg2, res2),
        cfg1.seed is Some,
        cfg2.seed == cfg1.seed,
        same_parameters(cfg1, cfg2),
    ensures
        res1.final_iteration == res2.final_iteration,
        res1.converged == res2.converged,
        res1.metrics_history@.len() == res2.metrics_history@.len(),
        forall|k: int|
            0 <= k < res1.metrics_history@.len() ==> {
                &&& (#[trigger] res1.metrics_history@[k]).step == res2.metrics_history@[k].step
                &&& res1.metrics_history@[k].n_dissatisfied == res2.metrics_history@[k].n_dissatisfied
                &&& res1.metrics_history@[k].n_moved == res2.metrics_history@[k].n_moved
                &&& res1.metrics_history@[k].samples_view() == res2.metrics_history@[k].samples_view()
            },
        res1.snapshots@.len() == res2.snapshots@.len(),
        forall|k: int|
            0 <= k < res1.snapshots@.len() ==> (#[trigger] res1.snapshots@[k]).step == res2.snapshots@[k].step
                && res1.snapshots@[k].cells@ == res2.snapshots@[k].cells@,
{
    let s = cfg1.seed->0;
    let h1 = res1.metrics_history@;
    let h2 = res2.metrics_history@;
    let (s1, states1, orders1) = choose|s: u64, states: Seq<WorldModel>, orders: Seq<Seq<usize>>|
        #[trigger] seeded_run_trace(cfg1, s, h1, res1.snapshots@, states, orders) && (cfg1.seed matches Some(
            t,
        ) ==> s == t);
    let (s2, states2, orders2) = choose|s: u64, states: Seq<WorldModel>, orders: Seq<Seq<usize>>|
        #[trigger] seeded_run_trace(cfg2, s, h2, res2.snapshots@, states, orders) && (cfg2.seed matches Some(
            t,
        ) ==> s == t);
    assert(s1 == s && s2 == s);
    assert(seeded_run_trace(cfg1, s, h1, res1.snapshots@, states1, orders1));
    assert(seeded_run_trace(cfg2, s, h2, res2.snapshots@, states2, orders2));
    assert(states1[0] == states2[0]);
    let n = states1[0].n_agents();
    assert forall|j: int| 0 <= j < orders1.len() && j < orders2.len() implies #[trigger] orders1[j]
        == orders2[j] by {
        assert(orders1[j] == shuffle_outcome(
            s,
            step_draws((cfg1.rows * cfg1.cols) as nat, n as nat, j as nat),
            index_range(n as nat),
        ));
        assert(orders2[j] == shuffle_outcome(
            s,
            step_draws((cfg2.rows * cfg2.cols) as nat, n as nat, j as nat),
            index_range(n as nat),
        ));
    }
    assert forall|k: int| 0 <= k < states1.len() && k < states2.len() implies #[trigger] states1[k]
        == states2[k] by {
        assert forall|j: int| 0 <= j < k implies orders1[j] == orders2[j] by {
            assert(orders1[j] == orders2[j]);
        }
        lemma_prefix_states_agree(states1, orders1, states2, orders2, k);
    }
    assert forall|k: int| 0 <= k < h1.len() && k < h2.len() implies {
        &&& (#[trigger] h1[k]).step == h2[k].step
        &&& h1[k].n_dissatisfied == h2[k].n_dissatisfied
        &&& h1[k].n_moved == h2[k].n_moved
        &&& h1[k].samples_view() == h2[k].samples_view()
    } by {
        assert(records_step(h1[k], states1, orders1, k));
        assert(records_step(h2[k], states2, orders2, k));
        assert(states1[k] == states2[k]);
        if k > 0 {
            assert(states1[k - 1] == states2[k - 1]);
            assert(orders1[k - 1] == orders2[k - 1]);
        }
    }
    let f1 = res1.final_iteration as int;
    let f2 = res2.final_iteration as int;
    if f1 < f2 {
        assert(h1[f1].n_dissatisfied == h2[f1].n_dissatisfied);
        assert(stopped_at(cfg2.move_mode, h2, f1));
        assert(false);
    }
    if f2 < f1 {
        assert(h1[f2].n_dissatisfied == h2[f2].n_dissatisfied);
        assert(stopped_at(cfg1.move_mode, h1, f2));
        assert(false);
    }
    assert(h1[f1].n_dissatisfied == h2[f1].n_dissatisfied);
    let steps1 = res1.snapshots@.map_values(|x: Snapshot| snapshot_step(x));
    let steps2 = res2.snapshots@.map_values(|x: Snapshot| snapshot_step(x));
    assert(steps1 == steps2);
    assert(steps1.len() == res1.snapshots@.len());
    assert(steps2.len() == res2.snapshots@.len());
    assert forall|k: int| 0 <= k < res1.snapshots@.len() implies (#[trigger] res1.snapshots@[k]).step
        == res2.snapshots@[k].step && res1.snapshots@[k].cells@ == res2.snapshots@[k].cells@ by {
        assert(steps1[k] == steps2[k]);
        assert(steps1[k] == snapshot_step(res1.snapshots@[k]));
        assert(steps2[k] == snapshot_step(res2.snapshots@[k]));
        let st = res1.snapshots@[k].step as int;
        assert(states1[st] == states2[st]);
    }
}

/// A run is determined by its initial world and its activation orders: two runs with
/// `cfg` that start from the same world and draw the same orders go through the same
/// worlds and record the same counts at every step.
pub proof fn lemma_run_determined(
    cfg: Config,
    history1: Seq<MetricCounts>,
    snapshots1: Seq<Snapshot>,
    states1: Seq<WorldModel>,
    history2: Seq<MetricCounts>,
    snapshots2: Seq<Snapshot>,
    states2: Seq<WorldModel>,
    orders: Seq<Seq<usize>>,
)
    requires
        run_trace(cfg, history1, snapshots1, states1, orders),
        run_trace(cfg, history2, snapshots2, states2, orders),
        states1[0] == states2[0],
    ensures
        states1 == states2,
        history1.len() == history2.len(),
        forall|k: int|
            0 <= k < history1.len() ==> {
                &&& (#[trigger] history1[k]).step == history2[k].step
                &&& history1[k].n_dissatisfied == history2[k].n_dissatisfied
                &&& history1[k].n_moved == history2[k].n_moved
                &&& history1[k].samples_view() == history2[k].samples_view()
            },
{
    assert forall|k: int| 0 <= k < states1.len() implies #[trigger] states1[k] == states2[k] by {
        lemma_run_states_agree(states1, states2, orders, k);
    }
    assert(states1 =~= states2);
    assert forall|k: int| 0 <= k < history1.len() implies {
        &&& (#[trigger] history1[k]).step == history2[k].step
        &&& history1[k].n_dissatisfied == history2[k].n_dissatisfied
        &&& history1[k].n_moved == history2[k].n_moved
        &&& history1[k].samples_view() == history2[k].samples_view()
    } by {
        assert(records_step(history1[k], states1, orders, k));
        assert(records_step(history2[k], states2, orders, k));
    }
}

proof fn lemma_run_states_agree(
    states1: Seq<WorldModel>,
    states2: Seq<WorldModel>,
    orders: Seq<Seq<usize>>,
    k: int,
)
    requires
        steps_follow(states1, orders),
        steps_follow(states2, orders),
        states1[0] == states2[0],
        0 <= k < states1.len(),
    ensures
        states1[k] == states2[k],
    decreases k,
{
    if k > 0 {
        lemma_run_states_agree(states1, states2, orders, k - 1);
        assert(states1[k] == step_result(states1[k - 1], orders[k - 1]).0);
        assert(states2[k] == step_result(states2[k - 1], orders[k - 1]).0);
    }
}

/// Every world of a run is well formed and keeps the size, rules and agents of the
/// first one.
proof fn lemma_run_states_keep(states: Seq<WorldModel>, orders: Seq<Seq<usize>>, k: int)
    requires
        steps_follow(states, orders),
        states[0].wf(),
        0 <= k < states.len(),
    ensures
        states[k].wf(),
        states[k].rows == states[0].rows,
        states[k].cols == states[0].cols,
        states[k].rule == states[0].rule,
        states[k].move_mode == states[0].move_mode,
        states[k].move_strategy == states[0].move_strategy,
        states[k].color == states[0].color,
    decreases k,
{
    if k > 0 {
        lemma_run_states_keep(states, orders, k - 1);
        assert(states[k] == step_result(states[k - 1], orders[k - 1]).0);
        lemma_step_preserves_agents(states[k - 1], orders[k - 1]);
    }
}

/// Under lenient operation, a step that starts with nobody dissatisfied is the last
/// change of the run: it moves nobody, leaves the world as it was, and that world has no
/// dissatisfied agent.
pub proof fn lemma_converged_run_settled(
    cfg: Config,
    history: Seq<MetricCounts>,
    snapshots: Seq<Snapshot>,
    states: Seq<WorldModel>,
    orders: Seq<Seq<usize>>,
    k: int,
)
    requires
        run_trace(cfg, history, snapshots, states, orders),
        cfg.move_mode == MoveMode::Standard,
        1 <= k < history.len(),
        history[k].n_dissatisfied == 0,
    ensures
        history[k].n_moved == 0,
        states[k] == states[k - 1],
        count_true(dissatisfied_flags(states[k])) == 0,
{
    assert(records_step(history[k], states, orders, k));
    lemma_run_states_keep(states, orders, k - 1);
    lemma_converged_is_fixed_point(states[k - 1], orders[k - 1]);
    assert(states[k] == step_result(states[k - 1], orders[k - 1]).0);
}

/// Extending a run by one step: the new world follows from the last one under `order`,
/// and the new records describe it.
proof fn lemma_trace_extends(
    cfg: Config,
    history: Seq<MetricCounts>,
    snapshots: Seq<Snapshot>,
    states: Seq<WorldModel>,
    orders: Seq<Seq<usize>>,
    history2: Seq<MetricCounts>,
    snapshots2: Seq<Snapshot>,
    order: Seq<usize>,
    next: WorldModel,
)
    requires
        run_trace(cfg, history, snapshots, states, orders),
        order.to_multiset() == index_range(states[0].n_agents() as nat).to_multiset(),
        next == step_result(states.last(), order).0,
        history2 == history.push(history2.last()),
        records_step(history2.last(), states.push(next), orders.push(order), states.len() as int),
        snapshots2.len() >= snapshots.len(),
        forall|k: int| 0 <= k < snapshots.len() ==> snapshots2[k] == snapshots[k],
        forall|k: int|
            snapshots.len() <= k < snapshots2.len() ==> (#[trigger] snapshots2[k]).step == states.len()
                && snapshots2[k].cells@ == next.grid_cells(),
    ensures
        run_trace(cfg, history2, snapshots2, states.push(next), orders.push(order)),
{
    let states2 = states.push(next);
    let orders2 = orders.push(order);
    assert forall|k: int| 0 <= k < orders2.len() implies (#[trigger] orders2[k]).to_multiset()
        == index_range(states2[0].n_agents() as nat).to_multiset() by {
        if k < orders.len() {
            assert(orders2[k] == orders[k]);
        }
    }
    assert forall|k: int| 0 <= k < orders2.len() implies states2[k + 1] == step_result(
        states2[k],
        #[trigger] orders2[k],
    ).0 by {
        if k < orders.len() {
            assert(orders2[k] == orders[k]);
            assert(states2[k] == states[k]);
            assert(states2[k + 1] == states[k + 1]);
        }
    }
    assert forall|k: int| 0 <= k < history2.len() implies records_step(
        #[trigger] history2[k],
        states2,
        orders2,
        k,
    ) by {
        if k < history.len() {
            assert(history2[k] == history[k]);
            assert(records_step(history[k], states, orders, k));
            assert(states2[k] == states[k]);
            if k > 0 {
                assert(states2[k - 1] == states[k - 1]);
                assert(orders2[k - 1] == orders[k - 1]);
            }
        }
    }
    assert forall|k: int| 0 <= k < snapshots2.len() implies (#[trigger] snapshots2[k]).step
        < states2.len() && snapshots2[k].cells@ == states2[snapshots2[k].step as int].grid_cells() by {
        if k < snapshots.len() {
            assert(snapshots2[k] == snapshots[k]);
            assert(states2[snapshots[k].step as int] == states[snapshots[k].step as int]);
        }
    }
}

/// Runs the spatial model with the parameters of `cfg`.
///
/// The initial lattice is drawn from a ChaCha8 generator seeded with `cfg.seed` (or a
/// random seed); every step activates all agents in an order shuffled by the same
/// generator and applies [`SchellingMoveMechanism`].  The run ends after the first step
/// whose outcome asks to stop, or after `cfg.max_iterations` steps.  Whatever the
/// shuffles return, the records and snapshots are those of a run through worlds each of
/// which follows from the one before by one step of the model under an order that
/// activates every agent once, from an initial lattice with the census of `cfg`; the
/// history holds one record per step, the stop rule is obeyed, the population of each
/// group is the same in every snapshot, and under lenient operation no step moves more
/// agents than were dissatisfied at its start.  With a seed `s`, the initial lattice and
/// every activation order are the shuffles the generator seeded from `s` gives, so the
/// run is a function of the parameters and `s` ([`lemma_same_seed_same_run`]).
pub fn run(cfg: &Config) -> (res: SimulationResult)
    requires
        cfg.rows * cfg.cols <= usize::MAX / 2,
        cfg.rows < usize::MAX,
        cfg.cols < usize::MAX,
        cfg.n_a + cfg.n_b <= cfg.rows * cfg.cols,
    ensures
        res.final_iteration <= cfg.max_iterations,
        res.metrics_history@.len() == res.final_iteration + 1,
        forall|k: int| 0 <= k < res.metrics_history@.len() ==> #[trigger] res.metrics_history@[k].step == k,
        res.metrics_history@[0].n_dissatisfied == 0,
        res.metrics_history@[0].n_moved == 0,
        forall|k: int|
            1 <= k < res.final_iteration ==> !stopped_at(cfg.move_mode, res.metrics_history@, k),
        res.final_iteration < cfg.max_iterations ==> res.final_iteration >= 1 && stopped_at(
            cfg.move_mode,
            res.metrics_history@,
            res.final_iteration as int,
        ),
        res.converged == (res.final_iteration >= 1 && stopped_at(
            cfg.move_mode,
            res.metrics_history@,
            res.final_iteration as int,
        ) && res.metrics_history@[res.final_iteration as int].n_dissatisfied == 0),
        cfg.move_mode == MoveMode::Standard ==> forall|k: int|
            0 <= k < res.metrics_history@.len() ==> #[trigger] res.metrics_history@[k].n_moved
                <= res.metrics_history@[k].n_dissatisfied,
        res.snapshots@.map_values(|s: Snapshot| snapshot_step(s)) == snapshot_steps(
            cfg.snapshot_interval as nat,
            res.final_iteration as nat,
        ),
        forall|k: int|
            0 <= k < res.snapshots@.len() ==> census(
                #[trigger] res.snapshots@[k].cells@,
                cfg.rows * cfg.cols,
                cfg.n_a as int,
                cfg.n_b as int,
            ),
        exists|states: Seq<WorldModel>, orders: Seq<Seq<usize>>|
            #[trigger] run_trace(*cfg, res.metrics_history@, res.snapshots@, states, orders),
        exists|s: u64, states: Seq<WorldModel>, orders: Seq<Seq<usize>>|
            #[trigger] seeded_run_trace(*cfg, s, res.metrics_history@, res.snapshots@, states, orders)
                && (cfg.seed matches Some(t) ==> s == t),
        run_outcome(*cfg, res),
{
    let seed = match cfg.seed {
        Some(s) => s,
        None => random_seed(),
    };
    let mut rng = seeded_rng(seed);
    let mut world = init_world(cfg, &mut rng);
    let n = world.n_agents();
    let ghost size = cfg.rows * cfg.cols;
    let ghost census0 = world@.grid_cells().to_multiset();
    let mut history: Vec<MetricCounts> = Vec::new();
    history.push(MetricCounts::compute(&world, 0, 0, 0));
    let mut snapshots: Vec<Snapshot> = Vec::new();
    if cfg.snapshot_interval > 0 {
        snapshots.push(Snapshot { step: 0, cells: world.cells() });
    }
    proof {
        assert(snapshots@.map_values(|s: Snapshot| snapshot_step(s)) =~= snapshot_steps(
            cfg.snapshot_interval as nat,
            0,
        ));
    }
    let ghost mut states: Seq<WorldModel> = seq![world@];
    let ghost mut orders: Seq<Seq<usize>> = Seq::empty();
    proof {
        assert(run_trace(*cfg, history@, snapshots@, states, orders));
        assert(rng@.1 =~= step_draws(size as nat, n as nat, 0));
        assert(drawn_from_seed(*cfg, seed, states, orders));
    }
    let mut mechanism = SchellingMoveMechanism;
    let mut done: usize = 0;
    while done < cfg.max_iterations
        invariant
            world.wf(),
            world@.rows == cfg.rows,
            world@.cols == cfg.cols,
            world@.move_mode == cfg.move_mode,
            n == world@.n_agents(),
            n <= cfg.rows * cfg.cols,
            cfg.rows * cfg.cols <= usize::MAX / 2,
            size == cfg.rows * cfg.cols,
            world@.grid_cells().len() == size,
            world@.grid_cells().to_multiset() == census0,
            census0.count(Cell::GroupA) == cfg.n_a,
            census0.count(Cell::GroupB) == cfg.n_b,
            census0.count(Cell::Empty) == size - cfg.n_a - cfg.n_b,
            done <= cfg.max_iterations,
            history@.len() == done + 1,
            forall|k: int| 0 <= k < history@.len() ==> #[trigger] history@[k].step == k,
            history@[0].n_dissatisfied == 0,
            history@[0].n_moved == 0,
            forall|k: int| 1 <= k <= done ==> !stopped_at(cfg.move_mode, history@, k),
            cfg.move_mode == MoveMode::Standard ==> forall|k: int|
                0 <= k < history@.len() ==> #[trigger] history@[k].n_moved <= history@[k].n_dissatisfied,
            snapshots@.map_values(|s: Snapshot| snapshot_step(s)) == snapshot_steps(
                cfg.snapshot_interval as nat,
                done as nat,
            ),
            forall|k: int|
                0 <= k < snapshots@.len() ==> census(
                    #[trigger] snapshots@[k].cells@,
                    cfg.rows * cfg.cols,
                    cfg.n_a as int,
                    cfg.n_b as int,
                ),
            run_trace(*cfg, history@, snapshots@, states, orders),
            states.last() == world@,
            rng@ == (seed, step_draws(size as nat, n as nat, done as nat)),
            drawn_from_seed(*cfg, seed, states, orders),
            cfg.seed matches Some(s) ==> s == seed,
            states[0].n_agents() == n,
            forall|k: int| 0 <= k < snapshots@.len() ==> (#[trigger] snapshots@[k]).step <= done,
        decreases cfg.max_iterations - done,
    {
        let iteration = done + 1;
        let mut order: Vec<usize> = Vec::new();
        let mut j: usize = 0;
        while j < n
            invariant
                j <= n,
                order@ == index_range(j as nat),
            decreases n - j,
        {
            order.push(j);
            proof {
                assert(order@ =~= index_range((j + 1) as nat));
            }
            j = j + 1;
        }
        let ghost draws_before = rng@.1;
        shuffle_indices(&mut order, &mut rng);
        proof {
            assert(rng@.1 =~= step_draws(size as nat, n as nat, (done + 1) as nat));
            lemma_permutation_of_range(order@, n as nat);
            lemma_step_preserves_agents(world@, order@);
        }
        let ghost before = world@;
        let out = mechanism.apply(&mut world, &order);
        let record = MetricCounts::compute(&world, iteration, out.n_dissatisfied, out.n_moved);
        let ghost hist_before = history@;
        history.push(record);
        let ghost snaps_before = snapshots@;
        if cfg.snapshot_interval > 0 && iteration % cfg.snapshot_interval == 0 {
            let cells = world.cells();
            snapshots.push(Snapshot { step: iteration, cells });
        }
        let ghost states_before = states;
        let ghost orders_before = orders;
        proof {
            states = states.push(world@);
            orders = orders.push(order@);
            assert forall|k: int| 0 <= k < orders.len() implies #[trigger] orders[k] == shuffle_outcome(
                seed,
                step_draws(size as nat, states[0].n_agents() as nat, k as nat),
                index_range(states[0].n_agents() as nat),
            ) by {
                if k < orders_before.len() {
                    assert(orders[k] == orders_before[k]);
                }
            }
            assert(history@[iteration as int] == record);
            assert forall|k: int| 0 <= k < history@.len() implies #[trigger] history@[k].step == k by {
                if k < iteration {
                    assert(history@[k] == hist_before[k]);
                }
            }
            assert forall|k: int| 1 <= k < iteration implies !stopped_at(cfg.move_mode, history@, k) by {
                assert(history@[k] == hist_before[k]);
                assert(!stopped_at(cfg.move_mode, hist_before, k));
            }
            if cfg.move_mode == MoveMode::Standard {
                assert forall|k: int|
                    0 <= k < history@.len() implies #[trigger] history@[k].n_moved
                        <= history@[k].n_dissatisfied by {
                    if k < iteration {
                        assert(history@[k] == hist_before[k]);
                    }
                }
            }
            assert(snapshots@.map_values(|s: Snapshot| snapshot_step(s)) =~= snapshot_steps(
                cfg.snapshot_interval as nat,
                iteration as nat,
            ));
            assert forall|k: int|
                0 <= k < snapshots@.len() implies census(
                    #[trigger] snapshots@[k].cells@,
                    cfg.rows * cfg.cols,
                    cfg.n_a as int,
                    cfg.n_b as int,
                ) by {
                if k < snaps_before.len() {
                    assert(snapshots@[k] == snaps_before[k]);
                }
            }
            lemma_trace_extends(
                *cfg,
                hist_before,
                snaps_before,
                states_before,
                orders_before,
                history@,
                snapshots@,
                order@,
                world@,
            );
        }
        if out.stop_requested {
            let res = SimulationResult {
                metrics_history: history,
                converged: out.converged,
                final_iteration: iteration,
                snapshots,
            };
            proof {
                assert(run_trace(*cfg, res.metrics_history@, res.snapshots@, states, orders));
                assert(seeded_run_trace(*cfg, seed, res.metrics_history@, res.snapshots@, states, orders));
            }
            return res;
        }
        done = iteration;
    }
    let res = SimulationResult {
        metrics_history: history,
        converged: false,
        final_iteration: cfg.max_iterations,
        snapshots,
    };
    proof {
        assert(run_trace(*cfg, res.metrics_history@, res.snapshots@, states, orders));
        assert(seeded_run_trace(*cfg, seed, res.metrics_history@, res.snapshots@, states, orders));
    }
    res
}

} // verus!
