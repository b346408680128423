use schelling::cell::Cell;
use schelling::config::{Config, MoveMode, MoveStrategy, SatisfactionRule};
use schelling::rng::SimRng;
use schelling::simulation::{init_cells, run, SimulationResult};

fn test_config() -> Config {
    Config {
        rows: 13,
        cols: 16,
        n_a: 73,
        n_b: 73,
        rule: SatisfactionRule::Ratio { num: 1, den: 2, negative: false },
        move_mode: MoveMode::Standard,
        move_strategy: MoveStrategy::Nearest,
        max_iterations: 200,
        seed: Some(42),
        snapshot_interval: 0,
        output_dir: String::from("unused"),
    }
}

fn census(cells: &[Cell]) -> (usize, usize, usize) {
    let a = cells.iter().filter(|c| **c == Cell::GroupA).count();
    let b = cells.iter().filter(|c| **c == Cell::GroupB).count();
    let e = cells.iter().filter(|c| **c == Cell::Empty).count();
    (a, b, e)
}

fn avg_same_ratio(r: &SimulationResult, k: usize) -> f64 {
    let ns = &r.metrics_history[k].neighborhoods;
    let mut sum = 0.0;
    for n in ns {
        sum += if n.total == 0 { 1.0 } else { n.same as f64 / n.total as f64 };
    }
    sum / ns.len() as f64
}

#[test]
fn same_seed_is_deterministic() {
    let a = run(&test_config());
    let b = run(&test_config());
    assert_eq!(a.converged, b.converged);
    assert_eq!(a.final_iteration, b.final_iteration);
    assert_eq!(a.metrics_history.len(), b.metrics_history.len());
    for (k, (ma, mb)) in a.metrics_history.iter().zip(&b.metrics_history).enumerate() {
        assert_eq!(ma.n_dissatisfied, mb.n_dissatisfied);
        assert_eq!(ma.n_moved, mb.n_moved);
        assert!((avg_same_ratio(&a, k) - avg_same_ratio(&b, k)).abs() < 1e-12);
    }
}

#[test]
fn moved_never_exceeds_dissatisfied() {
    let result = run(&test_config());
    for m in &result.metrics_history {
        assert!(
            m.n_moved <= m.n_dissatisfied,
            "step {}: n_moved={} > n_dissatisfied={}",
            m.step,
            m.n_moved,
            m.n_dissatisfied
        );
    }
}

#[test]
fn history_has_one_record_per_step() {
    let result = run(&test_config());
    assert_eq!(result.metrics_history.len(), result.final_iteration + 1);
    for (k, m) in result.metrics_history.iter().enumerate() {
        assert_eq!(m.step, k);
        assert_eq!(m.neighborhoods.len(), 146);
    }
    assert_eq!(result.metrics_history[0].n_moved, 0);
    assert_eq!(result.metrics_history[0].n_dissatisfied, 0);
}

#[test]
fn run_converges_and_segregates() {
    let result = run(&test_config());
    assert!(result.converged);
    assert!(result.final_iteration >= 1 && result.final_iteration <= 200);
    let last = result.metrics_history.last().unwrap();
    assert_eq!(last.n_dissatisfied, 0);
    // Everyone satisfied under threshold 1/2: each agent has at least half its
    // occupied neighbours of its own group.
    for n in &last.neighborhoods {
        assert!(2 * n.same >= n.total);
    }
}

#[test]
fn snapshots_keep_each_population() {
    let mut cfg = test_config();
    cfg.snapshot_interval = 3;
    let result = run(&cfg);
    assert!(!result.snapshots.is_empty());
    let mut expected_step = 0;
    for s in &result.snapshots {
        assert_eq!(s.step, expected_step);
        assert_eq!(s.cells.len(), 13 * 16);
        assert_eq!(census(&s.cells), (73, 73, 62));
        expected_step += 3;
    }
    assert!(expected_step > result.final_iteration);
}

#[test]
fn zero_iterations_gives_initial_state_only() {
    let mut cfg = test_config();
    cfg.max_iterations = 0;
    cfg.snapshot_interval = 1;
    let result = run(&cfg);
    assert_eq!(result.final_iteration, 0);
    assert!(!result.converged);
    assert_eq!(result.metrics_history.len(), 1);
    assert_eq!(result.snapshots.len(), 1);
    assert_eq!(census(&result.snapshots[0].cells), (73, 73, 62));
}

#[test]
fn strict_mode_run_keeps_population() {
    let mut cfg = test_config();
    cfg.move_mode = MoveMode::Strict;
    cfg.snapshot_interval = 1;
    let result = run(&cfg);
    for s in &result.snapshots {
        assert_eq!(census(&s.cells), (73, 73, 62));
    }
    if result.converged {
        let last = result.metrics_history.last().unwrap();
        assert_eq!(last.n_moved, 0);
        assert_eq!(last.n_dissatisfied, 0);
    }
}

#[test]
fn best_local_run_converges() {
    let mut cfg = test_config();
    cfg.move_strategy = MoveStrategy::BestLocal;
    let result = run(&cfg);
    for m in &result.metrics_history {
        assert!(m.n_moved <= m.n_dissatisfied);
    }
    assert!(result.final_iteration <= 200);
}

#[test]
fn default_config_matches_paper_setup() {
    let cfg = Config::default();
    assert_eq!((cfg.rows, cfg.cols, cfg.n_a, cfg.n_b), (13, 16, 73, 73));
    assert_eq!(cfg.rule, SatisfactionRule::Ratio { num: 1, den: 3, negative: false });
    assert_eq!(cfg.move_mode, MoveMode::Standard);
    assert_eq!(cfg.move_strategy, MoveStrategy::Nearest);
    assert_eq!(cfg.max_iterations, 500);
    assert_eq!(cfg.seed, Some(42));
    assert_eq!(cfg.snapshot_interval, 1);
    assert_eq!(cfg.output_dir, "results");
}

#[test]
fn converged_run_ends_unchanged() {
    let mut cfg = test_config();
    cfg.snapshot_interval = 1;
    let result = run(&cfg);
    assert!(result.converged);
    let f = result.final_iteration;
    assert!(f >= 1);
    assert_eq!(result.metrics_history[f].n_moved, 0);
    assert_eq!(result.snapshots.len(), f + 1);
    assert_eq!(result.snapshots[f].cells, result.snapshots[f - 1].cells);
    assert_eq!(
        result.metrics_history[f].neighborhoods,
        result.metrics_history[f - 1].neighborhoods
    );
}

#[test]
fn same_seed_same_run_whatever_the_output_directory() {
    let mut cfg1 = test_config();
    cfg1.snapshot_interval = 3;
    let mut cfg2 = cfg1.clone();
    cfg2.output_dir = String::from("elsewhere");
    let a = run(&cfg1);
    let b = run(&cfg2);
    assert_eq!(a.final_iteration, b.final_iteration);
    assert_eq!(a.converged, b.converged);
    assert_eq!(a.metrics_history.len(), b.metrics_history.len());
    for (ma, mb) in a.metrics_history.iter().zip(&b.metrics_history) {
        assert_eq!(ma.step, mb.step);
        assert_eq!(ma.n_dissatisfied, mb.n_dissatisfied);
        assert_eq!(ma.n_moved, mb.n_moved);
        assert_eq!(ma.neighborhoods, mb.neighborhoods);
    }
    assert_eq!(a.snapshots.len(), b.snapshots.len());
    for (sa, sb) in a.snapshots.iter().zip(&b.snapshots) {
        assert_eq!(sa.step, sb.step);
        assert_eq!(sa.cells, sb.cells);
    }
}

#[test]
fn initial_lattice_follows_the_seed() {
    let mut r1 = SimRng::from_seed(7);
    let mut r2 = SimRng::from_seed(7);
    let c1 = init_cells(13, 16, 73, 73, &mut r1);
    let c2 = init_cells(13, 16, 73, 73, &mut r2);
    assert_eq!(c1, c2);
    assert_eq!(census(&c1), (73, 73, 62));
    // The same generator goes on with new draws.
    let c3 = init_cells(13, 16, 73, 73, &mut r1);
    assert_eq!(census(&c3), (73, 73, 62));
    assert_ne!(c1, c3);
}
