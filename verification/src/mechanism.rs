use vstd::prelude::*;

use crate::config::MoveMode;
use crate::world::{frac_lt, lemma_apply_move, lemma_move_keeps_census, lemma_move_lands_as_predicted, opt_int_pair, SchellingWorld, WorldModel};

verus! {

/// Whether each agent is dissatisfied (indexed by agent id).
pub open spec fn dissatisfied_flags(m: WorldModel) -> Seq<bool> {
    Seq::new(m.n_agents() as nat, |id: int| !m.satisfied(m.pos(id).0, m.pos(id).1))
}

/// Number of `true` entries.
pub open spec fn count_true(s: Seq<bool>) -> nat
    decreases s.len(),
{
    if s.len() == 0 {
        0
    } else {
        count_true(s.drop_last()) + if s.last() { 1nat } else { 0nat }
    }
}

/// Destination of agent `id` in the lenient pass: it moves only if it was dissatisfied
/// at the start of the step (`dis`) and still is.
pub open spec fn standard_turn(m: WorldModel, id: int, dis: Seq<bool>) -> Option<(int, int)> {
    if 0 <= id < m.n_agents() && id < dis.len() && dis[id] && !m.satisfied(m.pos(id).0, m.pos(id).1) {
        m.move_target(m.pos(id))
    } else {
        None
    }
}

/// Destination of agent `id` in the speculative pass of strict operation: it moves only
/// if it was satisfied at the start of the step and still is.
pub open spec fn speculative_turn(m: WorldModel, id: int, dis: Seq<bool>) -> Option<(int, int)> {
    if 0 <= id < m.n_agents() && id < dis.len() && !dis[id] && m.satisfied(m.pos(id).0, m.pos(id).1) {
        m.speculative_target(m.pos(id))
    } else {
        None
    }
}

/// The agents of `order` take their lenient turns one after another; the result is the
/// world afterwards and the number of moves.
pub open spec fn standard_pass(m: WorldModel, order: Seq<usize>, dis: Seq<bool>) -> (WorldModel, nat)
    decreases order.len(),
{
    if order.len() == 0 {
        (m, 0)
    } else {
        let prev = standard_pass(m, order.drop_last(), dis);
        let id = order.last() as int;
        match standard_turn(prev.0, id, dis) {
            Some(v) => (prev.0.apply_move(id, v), prev.1 + 1),
            None => prev,
        }
    }
}

/// The agents of `order` take their speculative turns one after another.
pub open spec fn speculative_pass(m: WorldModel, order: Seq<usize>, dis: Seq<bool>) -> (WorldModel, nat)
    decreases order.len(),
{
    if order.len() == 0 {
        (m, 0)
    } else {
        let prev = speculative_pass(m, order.drop_last(), dis);
        let id = order.last() as int;
        match speculative_turn(prev.0, id, dis) {
            Some(v) => (prev.0.apply_move(id, v), prev.1 + 1),
            None => prev,
        }
    }
}

/// One step of the model: the lenient pass, then, under strict operation, the
/// speculative pass, both in activation order `order`.  Returns the world afterwards and
/// the total number of moves.
pub open spec fn step_result(m: WorldModel, order: Seq<usize>) -> (WorldModel, nat) {
    let dis = dissatisfied_flags(m);
    let first = standard_pass(m, order, dis);
    if m.move_mode == MoveMode::Strict {
        let second = speculative_pass(first.0, order, dis);
        (second.0, first.1 + second.1)
    } else {
        first
    }
}

/// When the driver stops: lenient operation stops once nobody was dissatisfied or nobody
/// moved; strict operation once nobody was dissatisfied and nobody moved.
pub open spec fn stop_rule(mode: MoveMode, converged: bool, moved: nat) -> bool {
    match mode {
        MoveMode::Standard => converged || moved == 0,
        MoveMode::Strict => converged && moved == 0,
    }
}

/// The result of one step.
#[derive(Clone, Copy, PartialEq, Eq, Debug, Structural)]
pub struct StepOutcome {
    /// Moves in this step (lenient plus speculative).
    pub n_moved: usize,
    /// Agents dissatisfied at the start of the step.
    pub n_dissatisfied: usize,
    /// Nobody was dissatisfied at the start of the step.
    pub converged: bool,
    /// The run should stop after this step.
    pub stop_requested: bool,
}

/// A target of either strategy is a vacant cell where the agent would be satisfied; a
/// speculative target also strictly raises its share.
pub proof fn lemma_targets_are_candidates(m: WorldModel, from: (int, int))
    ensures
        m.move_target(from) matches Some(v) ==> m.move_candidate(from, v),
        m.speculative_target(from) matches Some(v) ==> m.speculative_candidate(from, v),
{
}

/// Each pass keeps the world well formed, keeps every agent's group, and makes at
/// most one move per turn.
pub proof fn lemma_passes_preserve(m: WorldModel, order: Seq<usize>, dis: Seq<bool>)
    requires
        m.wf(),
    ensures
        standard_pass(m, order, dis).0.wf(),
        standard_pass(m, order, dis).0.color == m.color,
        standard_pass(m, order, dis).0.rows == m.rows,
        standard_pass(m, order, dis).0.cols == m.cols,
        standard_pass(m, order, dis).0.rule == m.rule,
        standard_pass(m, order, dis).0.move_mode == m.move_mode,
        standard_pass(m, order, dis).0.move_strategy == m.move_strategy,
        standard_pass(m, order, dis).1 <= order.len(),
        standard_pass(m, order, dis).0.grid_cells().to_multiset() == m.grid_cells().to_multiset(),
        speculative_pass(m, order, dis).0.wf(),
        speculative_pass(m, order, dis).0.color == m.color,
        speculative_pass(m, order, dis).0.rows == m.rows,
        speculative_pass(m, order, dis).0.cols == m.cols,
        speculative_pass(m, order, dis).0.rule == m.rule,
        speculative_pass(m, order, dis).0.move_mode == m.move_mode,
        speculative_pass(m, order, dis).0.move_strategy == m.move_strategy,
        speculative_pass(m, order, dis).1 <= order.len(),
        speculative_pass(m, order, dis).0.grid_cells().to_multiset() == m.grid_cells().to_multiset(),
    decreases order.len(),
{
    if order.len() > 0 {
        lemma_passes_preserve(m, order.drop_last(), dis);
        let id = order.last() as int;
        let p1 = standard_pass(m, order.drop_last(), dis).0;
        match standard_turn(p1, id, dis) {
            Some(v) => {
                lemma_targets_are_candidates(p1, p1.pos(id));
                lemma_apply_move(p1, id, v);
                lemma_move_keeps_census(p1, id, v);
            },
            None => {},
        }
        let p2 = speculative_pass(m, order.drop_last(), dis).0;
        match speculative_turn(p2, id, dis) {
            Some(v) => {
                lemma_targets_are_candidates(p2, p2.pos(id));
                lemma_apply_move(p2, id, v);
                lemma_move_keeps_census(p2, id, v);
            },
            None => {},
        }
    }
}

/// Number of positions of `order` that hold an agent flagged in `dis`.
pub open spec fn count_flagged(order: Seq<usize>, dis: Seq<bool>) -> nat
    decreases order.len(),
{
    if order.len() == 0 {
        0
    } else {
        count_flagged(order.drop_last(), dis) + if (order.last() as int) < dis.len() && dis[order.last() as int] {
            1nat
        } else {
            0nat
        }
    }
}

proof fn lemma_count_true_clear(s: Seq<bool>, i: int)
    requires
        0 <= i < s.len(),
    ensures
        count_true(s.update(i, false)) + (if s[i] { 1nat } else { 0nat }) == count_true(s),
    decreases s.len(),
{
    let t = s.update(i, false);
    if i == s.len() - 1 {
        assert(t.drop_last() =~= s.drop_last());
    } else {
        lemma_count_true_clear(s.drop_last(), i);
        assert(t.drop_last() =~= s.drop_last().update(i, false));
    }
}

proof fn lemma_count_flagged_ignores(order: Seq<usize>, dis: Seq<bool>, x: usize)
    requires
        !order.contains(x),
        (x as int) < dis.len(),
    ensures
        count_flagged(order, dis.update(x as int, false)) == count_flagged(order, dis),
    decreases order.len(),
{
    if order.len() > 0 {
        assert(!order.drop_last().contains(x)) by {
            if order.drop_last().contains(x) {
                let j = choose|j: int| 0 <= j < order.drop_last().len() && order.drop_last()[j] == x;
                assert(order[j] == x);
            }
        }
        lemma_count_flagged_ignores(order.drop_last(), dis, x);
        assert(order.last() != x) by {
            assert(order[order.len() - 1] == order.last());
        }
    }
}

proof fn lemma_count_flagged_bound(order: Seq<usize>, dis: Seq<bool>)
    requires
        order.no_duplicates(),
    ensures
        count_flagged(order, dis) <= count_true(dis),
    decreases order.len(),
{
    if order.len() > 0 {
        let x = order.last();
        let rest = order.drop_last();
        assert(rest.no_duplicates());
        if (x as int) < dis.len() && dis[x as int] {
            assert(!rest.contains(x)) by {
                if rest.contains(x) {
                    let j = choose|j: int| 0 <= j < rest.len() && rest[j] == x;
                    assert(order[j] == order[order.len() - 1]);
                }
            }
            let d2 = dis.update(x as int, false);
            lemma_count_flagged_ignores(rest, dis, x);
            lemma_count_flagged_bound(rest, d2);
            lemma_count_true_clear(dis, x as int);
        } else {
            lemma_count_flagged_bound(rest, dis);
        }
    }
}

proof fn lemma_standard_moves_flagged(m: WorldModel, order: Seq<usize>, dis: Seq<bool>)
    ensures
        standard_pass(m, order, dis).1 <= count_flagged(order, dis),
    decreases order.len(),
{
    if order.len() > 0 {
        lemma_standard_moves_flagged(m, order.drop_last(), dis);
    }
}

/// Under lenient operation, with each agent activated at most once, a step moves at
/// most as many agents as were dissatisfied when it started.
pub proof fn lemma_moves_bounded_by_dissatisfied(m: WorldModel, order: Seq<usize>)
    requires
        m.move_mode == MoveMode::Standard,
        order.no_duplicates(),
    ensures
        step_result(m, order).1 <= count_true(dissatisfied_flags(m)),
{
    lemma_standard_moves_flagged(m, order, dissatisfied_flags(m));
    lemma_count_flagged_bound(order, dissatisfied_flags(m));
}

proof fn lemma_count_true_zero(s: Seq<bool>)
    requires
        count_true(s) == 0,
    ensures
        forall|i: int| 0 <= i < s.len() ==> !s[i],
    decreases s.len(),
{
    if s.len() > 0 {
        lemma_count_true_zero(s.drop_last());
        assert forall|i: int| 0 <= i < s.len() implies !s[i] by {
            if i < s.len() - 1 {
                assert(s[i] == s.drop_last()[i]);
            }
        }
    }
}

proof fn lemma_pass_without_flags(m: WorldModel, order: Seq<usize>, dis: Seq<bool>)
    requires
        forall|i: int| 0 <= i < dis.len() ==> !dis[i],
    ensures
        standard_pass(m, order, dis) == (m, 0nat),
    decreases order.len(),
{
    if order.len() > 0 {
        lemma_pass_without_flags(m, order.drop_last(), dis);
    }
}

/// Under lenient operation, a world where every agent is satisfied is left unchanged
/// by a step.
pub proof fn lemma_converged_is_fixed_point(m: WorldModel, order: Seq<usize>)
    requires
        m.move_mode == MoveMode::Standard,
        count_true(dissatisfied_flags(m)) == 0,
    ensures
        step_result(m, order) == (m, 0nat),
{
    lemma_count_true_zero(dissatisfied_flags(m));
    lemma_pass_without_flags(m, order, dissatisfied_flags(m));
}

/// A step keeps the world well formed, never changes an agent's group, and keeps the
/// number of cells of each kind: the population of each group is constant.
pub proof fn lemma_step_preserves_agents(m: WorldModel, order: Seq<usize>)
    requires
        m.wf(),
    ensures
        step_result(m, order).0.wf(),
        step_result(m, order).0.color == m.color,
        step_result(m, order).0.n_agents() == m.n_agents(),
        step_result(m, order).0.rows == m.rows,
        step_result(m, order).0.cols == m.cols,
        step_result(m, order).0.rule == m.rule,
        step_result(m, order).0.move_mode == m.move_mode,
        step_result(m, order).0.move_strategy == m.move_strategy,
        step_result(m, order).0.grid_cells().to_multiset() == m.grid_cells().to_multiset(),
{
    let dis = dissatisfied_flags(m);
    lemma_passes_preserve(m, order, dis);
    lemma_passes_preserve(standard_pass(m, order, dis).0, order, dis);
}

/// An agent that moves in the lenient pass is satisfied at its destination right after
/// its move.
pub proof fn lemma_mover_lands_satisfied(m: WorldModel, id: int, dis: Seq<bool>)
    requires
        m.wf(),
        standard_turn(m, id, dis) is Some,
    ensures
        ({
            let v = standard_turn(m, id, dis)->0;
            m.apply_move(id, v).satisfied(v.0, v.1)
        }),
{
    let v = standard_turn(m, id, dis)->0;
    lemma_targets_are_candidates(m, m.pos(id));
    lemma_move_lands_as_predicted(m, id, v);
}

/// A speculative mover ends up strictly more surrounded by its own group than before,
/// and still satisfied.
pub proof fn lemma_speculator_gains(m: WorldModel, id: int, dis: Seq<bool>)
    requires
        m.wf(),
        speculative_turn(m, id, dis) is Some,
    ensures
        ({
            let v = speculative_turn(m, id, dis)->0;
            &&& frac_lt(m.current_share(m.pos(id).0, m.pos(id).1), m.apply_move(id, v).current_share(v.0, v.1))
            &&& m.apply_move(id, v).satisfied(v.0, v.1)
        }),
{
    let v = speculative_turn(m, id, dis)->0;
    lemma_targets_are_candidates(m, m.pos(id));
    lemma_move_lands_as_predicted(m, id, v);
}

/// One turn of the lenient pass, turn `i` of activation order `order`: the agent whose
/// turn it is moves only when it was dissatisfied at the start of the step (`dis`) and is
/// still dissatisfied in the world it finds at its turn; it then goes to a vacant cell of
/// that world where it is satisfied, and no other agent moves.  An agent that is
/// satisfied at its turn leaves the world as it is.
pub proof fn lemma_lenient_turn(m: WorldModel, order: Seq<usize>, dis: Seq<bool>, i: int)
    requires
        m.wf(),
        0 <= i < order.len(),
    ensures
        ({
            let w = standard_pass(m, order.take(i), dis).0;
            let w2 = standard_pass(m, order.take(i + 1), dis).0;
            let id = order[i] as int;
            &&& w2 != w ==> {
                &&& 0 <= id < w.n_agents()
                &&& id < dis.len() && dis[id]
                &&& !w.satisfied(w.pos(id).0, w.pos(id).1)
                &&& w.vacant(w2.pos(id))
                &&& w2.satisfied(w2.pos(id).0, w2.pos(id).1)
                &&& forall|j: int| 0 <= j < w.n_agents() && j != id ==> #[trigger] w2.pos(j) == w.pos(j)
            }
            &&& 0 <= id < w.n_agents() && w.satisfied(w.pos(id).0, w.pos(id).1) ==> w2 == w
        }),
{
    let w = standard_pass(m, order.take(i), dis).0;
    let id = order[i] as int;
    assert(order.take(i + 1).drop_last() =~= order.take(i));
    assert(order.take(i + 1).last() == order[i]);
    lemma_passes_preserve(m, order.take(i), dis);
    match standard_turn(w, id, dis) {
        Some(v) => {
            lemma_targets_are_candidates(w, w.pos(id));
            lemma_apply_move(w, id, v);
            lemma_move_lands_as_predicted(w, id, v);
            let w2 = w.apply_move(id, v);
            assert(w2.pos(id) == v);
            assert(w2 != w);
        },
        None => {},
    }
}

/// One turn of the speculative pass of strict operation, turn `i` of `order`: the agent
/// whose turn it is moves only when it was satisfied at the start of the step and is
/// still satisfied in the world it finds at its turn; it then goes to a vacant cell of
/// that world where its same-colour share is strictly larger and it is satisfied, and no
/// other agent moves.  An agent that is dissatisfied at its turn leaves the world as it
/// is.
pub proof fn lemma_speculative_turn(m: WorldModel, order: Seq<usize>, dis: Seq<bool>, i: int)
    requires
        m.wf(),
        0 <= i < order.len(),
    ensures
        ({
            let w = speculative_pass(m, order.take(i), dis).0;
            let w2 = speculative_pass(m, order.take(i + 1), dis).0;
            let id = order[i] as int;
            let before = w.current_share(w.pos(id).0, w.pos(id).1);
            let after = w2.current_share(w2.pos(id).0, w2.pos(id).1);
            &&& w2 != w ==> {
                &&& 0 <= id < w.n_agents()
                &&& id < dis.len() && !dis[id]
                &&& w.satisfied(w.pos(id).0, w.pos(id).1)
                &&& w.vacant(w2.pos(id))
                &&& before.0 * after.1 < after.0 * before.1
                &&& w2.satisfied(w2.pos(id).0, w2.pos(id).1)
                &&& forall|j: int| 0 <= j < w.n_agents() && j != id ==> #[trigger] w2.pos(j) == w.pos(j)
            }
            &&& 0 <= id < w.n_agents() && !w.satisfied(w.pos(id).0, w.pos(id).1) ==> w2 == w
        }),
{
    let w = speculative_pass(m, order.take(i), dis).0;
    let id = order[i] as int;
    assert(order.take(i + 1).drop_last() =~= order.take(i));
    assert(order.take(i + 1).last() == order[i]);
    lemma_passes_preserve(m, order.take(i), dis);
    match speculative_turn(w, id, dis) {
        Some(v) => {
            lemma_targets_are_candidates(w, w.pos(id));
            lemma_apply_move(w, id, v);
            lemma_move_lands_as_predicted(w, id, v);
            let w2 = w.apply_move(id, v);
            assert(w2.pos(id) == v);
            assert(w2 != w);
        },
        None => {},
    }
}

/// Agent `id` stands on another cell in `m1` than in `m0`.
pub open spec fn relocated(m0: WorldModel, m1: WorldModel, id: int) -> bool {
    m1.pos(id) != m0.pos(id)
}

/// Number of agents among `0..k` that stand on another cell in `m1` than in `m0`.
pub open spec fn count_relocated(m0: WorldModel, m1: WorldModel, k: nat) -> nat
    decreases k,
{
    if k == 0 {
        0
    } else {
        count_relocated(m0, m1, (k - 1) as nat) + if relocated(m0, m1, k - 1) { 1nat } else { 0nat }
    }
}

/// Nobody is relocated from a world to itself.
proof fn lemma_count_relocated_same(m: WorldModel, k: nat)
    ensures
        count_relocated(m, m, k) == 0,
    decreases k,
{
    if k > 0 {
        lemma_count_relocated_same(m, (k - 1) as nat);
    }
}

/// At most `k` of the agents `0..k` are relocated, and fewer when one of them is not.
proof fn lemma_count_relocated_bound(m0: WorldModel, m1: WorldModel, k: nat, j: int)
    ensures
        count_relocated(m0, m1, k) <= k,
        0 <= j < k && !relocated(m0, m1, j) ==> count_relocated(m0, m1, k) + 1 <= k,
    decreases k,
{
    if k > 0 {
        lemma_count_relocated_bound(m0, m1, (k - 1) as nat, j);
    }
}

/// A prefix of an order without repeated agents has none either, and does not hold the
/// agent that comes after it.
proof fn lemma_prefix_no_duplicates(order: Seq<usize>, i: int)
    requires
        order.no_duplicates(),
        0 <= i < order.len(),
    ensures
        order.take(i).no_duplicates(),
        !order.take(i).contains(order[i]),
{
    assert forall|a: int, b: int| 0 <= a < b < order.take(i).len() implies order.take(i)[a] != order.take(i)[b] by {
        assert(order.take(i)[a] == order[a] && order.take(i)[b] == order[b]);
    }
    if order.take(i).contains(order[i]) {
        let a = choose|a: int| 0 <= a < order.take(i).len() && order.take(i)[a] == order[i];
        assert(order[a] == order[i]);
    }
}

/// Moving one agent that had not moved yet adds one to the count of relocated agents.
proof fn lemma_count_relocated_bump(m0: WorldModel, m1: WorldModel, m2: WorldModel, j: int, k: nat)
    requires
        forall|i: int| 0 <= i < k && i != j ==> #[trigger] m2.pos(i) == m1.pos(i),
        !relocated(m0, m1, j),
        relocated(m0, m2, j),
    ensures
        count_relocated(m0, m2, k) == count_relocated(m0, m1, k) + if 0 <= j < k { 1nat } else { 0nat },
    decreases k,
{
    if k > 0 {
        lemma_count_relocated_bump(m0, m1, m2, j, (k - 1) as nat);
        if k - 1 != j {
            assert(m2.pos(k - 1) == m1.pos(k - 1));
        }
    }
}

/// Counts of relocated agents add up over two steps in which no agent moves twice.
proof fn lemma_count_relocated_add(m0: WorldModel, m1: WorldModel, m2: WorldModel, k: nat)
    requires
        forall|i: int|
            0 <= i < k ==> !(relocated(m0, m1, i) && #[trigger] relocated(m1, m2, i))
                && (relocated(m0, m2, i) <==> relocated(m0, m1, i) || relocated(m1, m2, i)),
    ensures
        count_relocated(m0, m2, k) == count_relocated(m0, m1, k) + count_relocated(m1, m2, k),
    decreases k,
{
    if k > 0 {
        lemma_count_relocated_add(m0, m1, m2, (k - 1) as nat);
        assert(!(relocated(m0, m1, k - 1) && relocated(m1, m2, k - 1)));
    }
}

proof fn lemma_last_not_in_prefix(order: Seq<usize>)
    requires
        order.len() > 0,
        order.no_duplicates(),
    ensures
        !order.drop_last().contains(order.last()),
        order.drop_last().no_duplicates(),
{
    if order.drop_last().contains(order.last()) {
        let i = choose|i: int| 0 <= i < order.drop_last().len() && order.drop_last()[i] == order.last();
        assert(order[i] == order[order.len() - 1]);
    }
}

/// In a lenient pass where every agent has at most one turn, agents without a turn stay
/// put, only agents flagged in `dis` move, and the number of moves is the number of
/// agents that stand elsewhere afterwards.
proof fn lemma_standard_pass_moves(m: WorldModel, order: Seq<usize>, dis: Seq<bool>)
    requires
        m.wf(),
        order.no_duplicates(),
    ensures
        forall|id: int|
            0 <= id < m.n_agents() && !order.contains(id as usize) ==> #[trigger] standard_pass(
                m,
                order,
                dis,
            ).0.pos(id) == m.pos(id),
        forall|id: int|
            0 <= id < m.n_agents() && #[trigger] relocated(m, standard_pass(m, order, dis).0, id)
                ==> id < dis.len() && dis[id],
        standard_pass(m, order, dis).1 == count_relocated(
            m,
            standard_pass(m, order, dis).0,
            m.n_agents() as nat,
        ),
    decreases order.len(),
{
    lemma_count_relocated_same(m, m.n_agents() as nat);
    if order.len() > 0 {
        let rest = order.drop_last();
        lemma_last_not_in_prefix(order);
        lemma_standard_pass_moves(m, rest, dis);
        lemma_passes_preserve(m, rest, dis);
        let prev = standard_pass(m, rest, dis).0;
        let id = order.last() as int;
        assert forall|j: int| 0 <= j < m.n_agents() && !#[trigger] order.contains(j as usize) implies !rest.contains(
            j as usize,
        ) && j != id by {
            if rest.contains(j as usize) {
                let i = choose|i: int| 0 <= i < rest.len() && rest[i] == j as usize;
                assert(order[i] == j as usize);
            }
            if j == id {
                assert(order[order.len() - 1] == j as usize);
            }
        }
        match standard_turn(prev, id, dis) {
            Some(v) => {
                lemma_targets_are_candidates(prev, prev.pos(id));
                lemma_apply_move(prev, id, v);
                let next = prev.apply_move(id, v);
                assert(next == standard_pass(m, order, dis).0);
                assert(prev.pos(id) == m.pos(id)) by {
                    assert(!rest.contains(id as usize));
                }
                assert forall|i: int| 0 <= i < m.n_agents() && i != id implies #[trigger] next.pos(i)
                    == prev.pos(i) by {}
                lemma_count_relocated_bump(m, prev, next, id, m.n_agents() as nat);
                assert forall|j: int|
                    0 <= j < m.n_agents() && #[trigger] relocated(m, next, j) implies j < dis.len()
                        && dis[j] by {
                    if j != id {
                        assert(next.pos(j) == prev.pos(j));
                        assert(relocated(m, prev, j));
                    }
                }
            },
            None => {},
        }
    }
}

/// In a speculative pass where every agent has at most one turn, agents without a turn
/// stay put, only agents not flagged in `dis` move, and the number of moves is the number
/// of agents that stand elsewhere afterwards.
proof fn lemma_speculative_pass_moves(m: WorldModel, order: Seq<usize>, dis: Seq<bool>)
    requires
        m.wf(),
        order.no_duplicates(),
    ensures
        forall|id: int|
            0 <= id < m.n_agents() && #[trigger] relocated(m, speculative_pass(m, order, dis).0, id)
                ==> id < dis.len() && !dis[id],
        speculative_pass(m, order, dis).1 == count_relocated(
            m,
            speculative_pass(m, order, dis).0,
            m.n_agents() as nat,
        ),
        forall|id: int|
            0 <= id < m.n_agents() && !order.contains(id as usize) ==> #[trigger] speculative_pass(
                m,
                order,
                dis,
            ).0.pos(id) == m.pos(id),
    decreases order.len(),
{
    lemma_count_relocated_same(m, m.n_agents() as nat);
    if order.len() > 0 {
        let rest = order.drop_last();
        lemma_last_not_in_prefix(order);
        lemma_speculative_pass_moves(m, rest, dis);
        lemma_passes_preserve(m, rest, dis);
        let prev = speculative_pass(m, rest, dis).0;
        let id = order.last() as int;
        assert forall|j: int| 0 <= j < m.n_agents() && !#[trigger] order.contains(j as usize) implies !rest.contains(
            j as usize,
        ) && j != id by {
            if rest.contains(j as usize) {
                let i = choose|i: int| 0 <= i < rest.len() && rest[i] == j as usize;
                assert(order[i] == j as usize);
            }
            if j == id {
                assert(order[order.len() - 1] == j as usize);
            }
        }
        match speculative_turn(prev, id, dis) {
            Some(v) => {
                lemma_targets_are_candidates(prev, prev.pos(id));
                lemma_apply_move(prev, id, v);
                let next = prev.apply_move(id, v);
                assert(next == speculative_pass(m, order, dis).0);
                assert(prev.pos(id) == m.pos(id)) by {
                    assert(!rest.contains(id as usize));
                }
                assert forall|i: int| 0 <= i < m.n_agents() && i != id implies #[trigger] next.pos(i)
                    == prev.pos(i) by {}
                lemma_count_relocated_bump(m, prev, next, id, m.n_agents() as nat);
                assert forall|j: int|
                    0 <= j < m.n_agents() && #[trigger] relocated(m, next, j) implies j < dis.len()
                        && !dis[j] by {
                    if j != id {
                        assert(next.pos(j) == prev.pos(j));
                        assert(relocated(m, prev, j));
                    }
                }
            },
            None => {},
        }
    }
}

/// When every agent is activated at most once, the moves a step counts are exactly the
/// agents that stand on another cell after it (so no agent moves twice in a step), and
/// under lenient operation every agent satisfied at the start of the step stays where it
/// was.
pub proof fn lemma_step_moves(m: WorldModel, order: Seq<usize>)
    requires
        m.wf(),
        order.no_duplicates(),
    ensures
        step_result(m, order).1 == count_relocated(m, step_result(m, order).0, m.n_agents() as nat),
        m.move_mode == MoveMode::Standard ==> forall|id: int|
            0 <= id < m.n_agents() && !dissatisfied_flags(m)[id] ==> #[trigger] step_result(
                m,
                order,
            ).0.pos(id) == m.pos(id),
{
    let dis = dissatisfied_flags(m);
    let n = m.n_agents();
    lemma_standard_pass_moves(m, order, dis);
    lemma_passes_preserve(m, order, dis);
    let first = standard_pass(m, order, dis).0;
    assert forall|id: int| 0 <= id < n && !dis[id] implies #[trigger] first.pos(id) == m.pos(id) by {
        assert(!relocated(m, first, id));
    }
    if m.move_mode == MoveMode::Strict {
        lemma_speculative_pass_moves(first, order, dis);
        let last = speculative_pass(first, order, dis).0;
        assert forall|i: int|
            0 <= i < n implies !(relocated(m, first, i) && #[trigger] relocated(first, last, i))
                && (relocated(m, last, i) <==> relocated(m, first, i) || relocated(first, last, i)) by {
            if relocated(m, first, i) {
                assert(dis[i]);
                assert(!relocated(first, last, i));
            }
            if relocated(first, last, i) {
                assert(!dis[i]);
            }
        }
        lemma_count_relocated_add(m, first, last, n as nat);
    }
}

/// The relocation rule of the spatial model (Schelling 1971, pp. 149-155).
///
/// Only agents dissatisfied at the start of a step may move in its lenient pass; one
/// that has become satisfied meanwhile stays.  A mover goes to the destination its
/// strategy picks among the vacant cells where it would be satisfied.  Under strict
/// operation, agents satisfied at the start and still satisfied then move speculatively
/// to the nearest vacant cell that strictly raises their same-colour share.
pub struct SchellingMoveMechanism;

impl SchellingMoveMechanism {
    /// Dissatisfaction flags of all agents and their number.
    fn dissatisfied(world: &SchellingWorld) -> (res: (Vec<bool>, usize))
        requires
            world.wf(),
        ensures
            res.0@ == dissatisfied_flags(world@),
            res.1 == count_true(res.0@),
            res.1 <= res.0@.len(),
    {
        let n = world.n_agents();
        let mut dis: Vec<bool> = Vec::new();
        let mut count: usize = 0;
        let mut id: usize = 0;
        while id < n
            invariant
                world.wf(),
                n == world@.n_agents(),
                id <= n,
                dis@ == dissatisfied_flags(world@).take(id as int),
                count == count_true(dis@),
                count <= id,
            decreases n - id,
        {
            let p = match world.agent_position(id) {
                Some(p) => p,
                None => { proof { assert(false); } (0, 0) },
            };
            let sat = world.is_satisfied_buf(p.0, p.1);
            let ghost before = dis@;
            dis.push(!sat);
            if !sat {
                count = count + 1;
            }
            proof {
                assert(dis@.drop_last() =~= before);
                assert(dis@ =~= dissatisfied_flags(world@).take(id + 1));
            }
            id = id + 1;
        }
        proof {
            assert(dis@ =~= dissatisfied_flags(world@));
        }
        (dis, count)
    }

    /// Runs one step on `world` with agents activated in `agent_order`.
    pub fn apply(&mut self, world: &mut SchellingWorld, agent_order: &Vec<usize>) -> (out: StepOutcome)
        requires
            old(world).wf(),
            agent_order@.len() <= usize::MAX / 2 || agent_order@.no_duplicates(),
        ensures
            final(world).wf(),
            final(world)@ == step_result(old(world)@, agent_order@).0,
            out.n_moved == step_result(old(world)@, agent_order@).1,
            out.n_dissatisfied == count_true(dissatisfied_flags(old(world)@)),
            out.converged == (out.n_dissatisfied == 0),
            out.stop_requested == stop_rule(old(world)@.move_mode, out.converged, out.n_moved as nat),
            old(world)@.move_mode == MoveMode::Standard && agent_order@.no_duplicates() ==> out.n_moved
                <= out.n_dissatisfied,
            agent_order@.no_duplicates() ==> out.n_moved == count_relocated(
                old(world)@,
                final(world)@,
                old(world)@.n_agents() as nat,
            ),
            old(world)@.move_mode == MoveMode::Standard && agent_order@.no_duplicates() ==> forall|id: int|
                0 <= id < old(world)@.n_agents() && !dissatisfied_flags(old(world)@)[id]
                    ==> #[trigger] final(world)@.pos(id) == old(world)@.pos(id),
    {
        let ghost m0 = world@;
        let mode = world.move_mode();
        let (dis, n_dis) = Self::dissatisfied(world);
        let n = world.n_agents();
        let len = agent_order.len();
        let mut moved: usize = 0;
        let mut i: usize = 0;
        while i < len
            invariant
                world.wf(),
                len == agent_order@.len(),
                n == world@.n_agents(),
                n == m0.n_agents(),
                dis@ == dissatisfied_flags(m0),
                m0.wf(),
                len <= usize::MAX / 2 || agent_order@.no_duplicates(),
                i <= len,
                world@ == standard_pass(m0, agent_order@.take(i as int), dis@).0,
                moved == standard_pass(m0, agent_order@.take(i as int), dis@).1,
                moved <= i,
            decreases len - i,
        {
            let id = agent_order[i];
            let ghost prev = world@;
            let mut target: Option<(usize, usize)> = None;
            if id < n && dis[id] {
                let p = match world.agent_position(id) {
                    Some(p) => p,
                    None => { proof { assert(false); } (0, 0) },
                };
                if !world.is_satisfied_buf(p.0, p.1) {
                    target = world.nearest_satisfying_vacant(p);
                }
            }
            proof {
                assert(opt_int_pair(target) == standard_turn(prev, id as int, dis@));
                lemma_targets_are_candidates(prev, prev.pos(id as int));
                if agent_order@.no_duplicates() && target is Some {
                    lemma_prefix_no_duplicates(agent_order@, i as int);
                    lemma_standard_pass_moves(m0, agent_order@.take(i as int), dis@);
                    assert(prev.pos(id as int) == m0.pos(id as int));
                    lemma_count_relocated_bound(m0, prev, n as nat, id as int);
                }
            }
            match target {
                Some(v) => {
                    world.move_agent(id, v);
                    moved = moved + 1;
                },
                None => {},
            }
            proof {
                let t = agent_order@.take(i + 1);
                assert(t.drop_last() =~= agent_order@.take(i as int));
                assert(t.last() == id);
            }
            i = i + 1;
        }
        proof {
            assert(agent_order@.take(len as int) =~= agent_order@);
            lemma_passes_preserve(m0, agent_order@, dis@);
        }
        let mut spec_moved: usize = 0;
        if mode == MoveMode::Strict {
            let ghost m1 = world@;
            let mut i: usize = 0;
            while i < len
                invariant
                    world.wf(),
                    len == agent_order@.len(),
                    n == world@.n_agents(),
                    dis@ == dissatisfied_flags(m0),
                    dis@.len() == n,
                    m1.wf(),
                    n == m1.n_agents(),
                    len <= usize::MAX / 2 || agent_order@.no_duplicates(),
                    i <= len,
                    world@ == speculative_pass(m1, agent_order@.take(i as int), dis@).0,
                    spec_moved == speculative_pass(m1, agent_order@.take(i as int), dis@).1,
                    spec_moved <= i,
                decreases len - i,
            {
                let id = agent_order[i];
                let ghost prev = world@;
                let mut target: Option<(usize, usize)> = None;
                if id < n && !dis[id] {
                    let p = match world.agent_position(id) {
                        Some(p) => p,
                        None => { proof { assert(false); } (0, 0) },
                    };
                    if world.is_satisfied_buf(p.0, p.1) {
                        target = world.best_speculative_vacant(p);
                    }
                }
                proof {
                    assert(opt_int_pair(target) == speculative_turn(prev, id as int, dis@));
                    lemma_targets_are_candidates(prev, prev.pos(id as int));
                    if agent_order@.no_duplicates() && target is Some {
                        lemma_prefix_no_duplicates(agent_order@, i as int);
                        lemma_speculative_pass_moves(m1, agent_order@.take(i as int), dis@);
                        assert(prev.pos(id as int) == m1.pos(id as int));
                        lemma_count_relocated_bound(m1, prev, n as nat, id as int);
                    }
                }
                match target {
                    Some(v) => {
                        world.move_agent(id, v);
                        spec_moved = spec_moved + 1;
                    },
                    None => {},
                }
                proof {
                    let t = agent_order@.take(i + 1);
                    assert(t.drop_last() =~= agent_order@.take(i as int));
                    assert(t.last() == id);
                }
                i = i + 1;
            }
            proof {
                assert(agent_order@.take(len as int) =~= agent_order@);
            }
        }
        proof {
            lemma_passes_preserve(m0, agent_order@, dis@);
            if m0.move_mode == MoveMode::Standard && agent_order@.no_duplicates() {
                lemma_moves_bounded_by_dissatisfied(m0, agent_order@);
            }
            if agent_order@.no_duplicates() {
                lemma_step_moves(m0, agent_order@);
                lemma_count_relocated_bound(m0, world@, n as nat, -1);
            }
        }
        let total = moved + spec_moved;
        let converged = n_dis == 0;
        let stop = match mode {
            MoveMode::Standard => converged || total == 0,
            MoveMode::Strict => converged && total == 0,
        };
        StepOutcome { n_moved: total, n_dissatisfied: n_dis, converged, stop_requested: stop }
    }
}

} // verus!
