use schelling::cell::Cell;
use schelling::config::SatisfactionRule;
use schelling::metrics::{MetricCounts, NeighborCount};
use schelling::world::SchellingWorld;

const A: Cell = Cell::GroupA;
const B: Cell = Cell::GroupB;
const E: Cell = Cell::Empty;

#[test]
fn counts_collect_every_agent_in_row_major_order() {
    // A A .
    // . . .
    // . . B
    let cells = vec![A, A, E, E, E, E, E, E, B];
    let w = SchellingWorld::new(3, 3, &cells, SatisfactionRule::Ratio { num: 1, den: 2, negative: false });
    let m = MetricCounts::compute(&w, 7, 2, 1);
    assert_eq!(m.step, 7);
    assert_eq!(m.n_dissatisfied, 2);
    assert_eq!(m.n_moved, 1);
    assert_eq!(
        m.neighborhoods,
        vec![
            NeighborCount { color: A, same: 1, total: 1 },
            NeighborCount { color: A, same: 1, total: 1 },
            NeighborCount { color: B, same: 0, total: 0 },
        ]
    );
    assert_eq!(m.tallies(), (2, 1, 3));
}

#[test]
fn tallies_count_agents_with_an_opposite_neighbour() {
    // A A .
    // B A .
    // . B B
    let cells = vec![A, A, E, B, A, E, E, B, B];
    let w = SchellingWorld::new(3, 3, &cells, SatisfactionRule::MinSame { min_same: 2 });
    let m = MetricCounts::compute(&w, 0, 0, 0);
    assert_eq!(m.neighborhoods.len(), 6);
    assert_eq!(m.tallies(), (3, 3, 0));
}
