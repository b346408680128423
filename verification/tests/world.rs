use schelling::cell::Cell;
use schelling::config::{MoveMode, MoveStrategy, SatisfactionRule};
use schelling::mechanism::SchellingMoveMechanism;
use schelling::world::{chebyshev_distance, SchellingWorld};

const A: Cell = Cell::GroupA;
const B: Cell = Cell::GroupB;
const E: Cell = Cell::Empty;

// A A .
// B A .
// . B B
fn small_cells() -> Vec<Cell> {
    vec![A, A, E, B, A, E, E, B, B]
}

fn half() -> SatisfactionRule {
    SatisfactionRule::Ratio { num: 1, den: 2, negative: false }
}

fn small_world(mode: MoveMode, strategy: MoveStrategy) -> SchellingWorld {
    SchellingWorld::with_modes(3, 3, &small_cells(), half(), mode, strategy)
}

#[test]
fn cells_and_agents_in_row_major_order() {
    let w = SchellingWorld::new(3, 3, &small_cells(), half());
    assert_eq!(w.rows(), 3);
    assert_eq!(w.cols(), 3);
    assert_eq!(w.n_agents(), 6);
    assert_eq!(w.cells(), small_cells());
    assert_eq!(w.agent_position(0), Some((0, 0)));
    assert_eq!(w.agent_position(2), Some((1, 0)));
    assert_eq!(w.agent_position(5), Some((2, 2)));
    assert_eq!(w.agent_position(6), None);
    assert_eq!(w.agent_color(4), B);
    assert_eq!(w.cell_color(2, 0), E);
    assert_eq!(w.cell_color(7, 7), E);
    assert_eq!(w.move_mode(), MoveMode::Standard);
    assert_eq!(w.move_strategy(), MoveStrategy::Nearest);
    assert_eq!(w.rule(), half());
}

#[test]
fn neighbor_counts_on_small_grid() {
    let w = SchellingWorld::new(3, 3, &small_cells(), half());
    assert_eq!(w.neighbor_counts_buf(1, 1), (2, 5));
    assert_eq!(w.neighbor_counts_buf(0, 0), (2, 3));
    assert_eq!(w.neighbor_counts_buf(1, 0), (1, 4));
    assert_eq!(w.neighbor_counts_buf(2, 0), (0, 0));
    assert_eq!(w.same_color_ratio_buf(1, 1), (2, 5));
    assert_eq!(w.same_color_ratio_buf(2, 0), (1, 1));
    assert!(w.has_opposite_neighbor_buf(0, 0));
    assert!(!w.has_opposite_neighbor_buf(2, 0));
}

#[test]
fn satisfaction_under_half_threshold() {
    let w = SchellingWorld::new(3, 3, &small_cells(), half());
    assert!(!w.is_satisfied_buf(1, 0));
    assert!(w.is_satisfied_buf(0, 0));
    assert!(!w.is_satisfied_buf(1, 1));
    assert!(w.is_satisfied_buf(2, 2));
    assert!(w.is_satisfied_buf(2, 0));
}

#[test]
fn prediction_after_move_treats_origin_as_vacant() {
    let w = SchellingWorld::new(3, 3, &small_cells(), half());
    assert!(!w.will_be_satisfied_after_move_buf((1, 0), (0, 2)));
    assert!(w.will_be_satisfied_after_move_buf((1, 0), (1, 2)));
    assert!(w.will_be_satisfied_after_move_buf((1, 0), (2, 0)));
    assert_eq!(w.ratio_after_move_buf((1, 0), (2, 0)), (1, 2));
    assert_eq!(w.ratio_after_move_buf((1, 0), (1, 2)), (2, 4));
    assert_eq!(w.ratio_after_move_buf((0, 0), (0, 2)), (2, 2));
}

#[test]
fn nearest_and_best_local_destinations() {
    let w = small_world(MoveMode::Standard, MoveStrategy::Nearest);
    assert_eq!(w.nearest_satisfying_vacant((1, 0)), Some((2, 0)));
    let w = small_world(MoveMode::Standard, MoveStrategy::BestLocal);
    assert_eq!(w.nearest_satisfying_vacant((1, 0)), Some((2, 0)));
    assert_eq!(chebyshev_distance((1, 0), (1, 2)), 2);
}

#[test]
fn best_local_prefers_higher_share() {
    // B . . B
    // B A A .
    // With threshold 0: every vacant cell satisfies; best-local picks the highest share.
    let cells = vec![B, E, E, B, B, A, A, E];
    let zero = SatisfactionRule::Ratio { num: 0, den: 1, negative: false };
    let near = SchellingWorld::with_modes(2, 4, &cells, zero, MoveMode::Standard, MoveStrategy::Nearest);
    let best = SchellingWorld::with_modes(2, 4, &cells, zero, MoveMode::Standard, MoveStrategy::BestLocal);
    // The A at (1,2): nearest vacant is (0,1) (distance 1, first in row-major order).
    assert_eq!(near.nearest_satisfying_vacant((1, 2)), Some((0, 1)));
    // Shares after moving, with the origin taken as vacant: 1/3, 1/2 and 0/1.
    assert_eq!(best.ratio_after_move_buf((1, 2), (0, 1)), (1, 3));
    assert_eq!(best.ratio_after_move_buf((1, 2), (0, 2)), (1, 2));
    assert_eq!(best.ratio_after_move_buf((1, 2), (1, 3)), (0, 1));
    assert_eq!(best.nearest_satisfying_vacant((1, 2)), Some((0, 2)));
}

#[test]
fn no_destination_when_nothing_satisfies() {
    let cells = vec![A, B, E, B];
    let strict_rule = SatisfactionRule::MinSame { min_same: 1 };
    let w = SchellingWorld::new(2, 2, &cells, strict_rule);
    assert_eq!(w.nearest_satisfying_vacant((0, 0)), None);
}

#[test]
fn speculative_destination_strictly_improves() {
    let w = small_world(MoveMode::Strict, MoveStrategy::Nearest);
    assert_eq!(w.best_speculative_vacant((0, 0)), Some((0, 2)));
    // The A at (1,1) has share 1/2; alone next to (0,1) its share would be 1.
    assert_eq!(w.best_speculative_vacant((1, 1)), Some((0, 2)));
    assert_eq!(w.best_speculative_vacant((2, 1)), None);
}

#[test]
fn move_agent_updates_grid() {
    let mut w = SchellingWorld::new(3, 3, &small_cells(), half());
    w.move_agent(2, (2, 0));
    assert_eq!(w.cells(), vec![A, A, E, E, A, E, B, B, B]);
    assert_eq!(w.agent_position(2), Some((2, 0)));
    assert!(w.is_satisfied_buf(2, 0));
}

#[test]
fn one_lenient_step_moves_the_dissatisfied_agent() {
    let mut w = small_world(MoveMode::Standard, MoveStrategy::Nearest);
    let mut mech = SchellingMoveMechanism;
    let out = mech.apply(&mut w, &vec![5, 4, 3, 2, 1, 0]);
    // Agents 2 (the B at (1,0)) and 3 (the A at (1,1)) start dissatisfied; 3 moves first.
    assert_eq!(out.n_dissatisfied, 2);
    assert_eq!(out.n_moved, 2);
    assert!(!out.converged);
    assert!(!out.stop_requested);
    assert_eq!(w.cells(), vec![A, A, A, E, E, E, B, B, B]);
    // Now everybody is satisfied: the next step is a fixed point and asks to stop.
    let out = mech.apply(&mut w, &vec![0, 1, 2, 3, 4, 5]);
    assert_eq!(out.n_dissatisfied, 0);
    assert_eq!(out.n_moved, 0);
    assert!(out.converged);
    assert!(out.stop_requested);
    assert_eq!(w.cells(), vec![A, A, A, E, E, E, B, B, B]);
}

#[test]
fn strict_step_also_moves_satisfied_agents() {
    let zero = SatisfactionRule::Ratio { num: 0, den: 1, negative: false };
    let mut w = SchellingWorld::with_modes(1, 4, &vec![A, E, A, B], zero, MoveMode::Strict, MoveStrategy::Nearest);
    let mut mech = SchellingMoveMechanism;
    let out = mech.apply(&mut w, &vec![0, 1, 2]);
    assert_eq!(out.n_dissatisfied, 0);
    assert_eq!(out.n_moved, 1);
    assert!(out.converged);
    assert!(!out.stop_requested);
    assert_eq!(w.cells(), vec![A, A, E, B]);
    let out = mech.apply(&mut w, &vec![2, 1, 0]);
    assert_eq!(out.n_moved, 0);
    assert!(out.stop_requested);
    // Under lenient operation the same world is already at rest.
    let mut w = SchellingWorld::with_modes(1, 4, &vec![A, E, A, B], zero, MoveMode::Standard, MoveStrategy::Nearest);
    let out = mech.apply(&mut w, &vec![0, 1, 2]);
    assert_eq!(out.n_moved, 0);
    assert!(out.stop_requested);
}

#[test]
fn strict_step_on_small_grid() {
    let mut w = small_world(MoveMode::Strict, MoveStrategy::Nearest);
    let mut mech = SchellingMoveMechanism;
    let out = mech.apply(&mut w, &vec![0, 1, 2, 3, 4, 5]);
    assert_eq!(out.n_dissatisfied, 2);
    assert_eq!(out.n_moved, 2);
    assert!(!out.stop_requested);
    assert_eq!(w.cells(), vec![A, A, A, E, E, E, B, B, B]);
}

#[test]
fn unknown_ids_in_order_are_skipped() {
    let mut w = small_world(MoveMode::Standard, MoveStrategy::Nearest);
    let mut mech = SchellingMoveMechanism;
    let out = mech.apply(&mut w, &vec![17, 99]);
    assert_eq!(out.n_moved, 0);
    assert!(out.stop_requested);
    assert_eq!(w.cells(), small_cells());
}

fn positions(w: &SchellingWorld) -> Vec<Option<(usize, usize)>> {
    (0..w.n_agents()).map(|id| w.agent_position(id)).collect()
}

fn relocated(before: &[Option<(usize, usize)>], after: &[Option<(usize, usize)>]) -> usize {
    before.iter().zip(after).filter(|(a, b)| a != b).count()
}

#[test]
fn moves_counted_are_the_agents_relocated() {
    for mode in [MoveMode::Standard, MoveMode::Strict] {
        let mut w = small_world(mode, MoveStrategy::Nearest);
        let before = positions(&w);
        let satisfied: Vec<bool> = before
            .iter()
            .map(|p| {
                let (r, c) = p.unwrap();
                w.is_satisfied_buf(r, c)
            })
            .collect();
        let mut mech = SchellingMoveMechanism;
        let out = mech.apply(&mut w, &vec![5, 4, 3, 2, 1, 0]);
        let after = positions(&w);
        assert_eq!(out.n_moved, relocated(&before, &after));
        if mode == MoveMode::Standard {
            for id in 0..before.len() {
                if satisfied[id] {
                    assert_eq!(before[id], after[id]);
                }
            }
        }
    }
}
