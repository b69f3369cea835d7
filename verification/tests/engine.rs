use pagerank::matrix::TransitionMatrix;
use pagerank::presenter::{present, sort_by_rank, take_top, StringId};
use pagerank::solver::{init_ranks, Solver, SweepOutcome};
use pagerank::{Node, RankError};

const DAMPING: f64 = 0.15;
const THRESHOLD: f64 = 1e-6;

fn damp(rows: &[Vec<f64>]) -> Vec<Vec<f64>> {
    let n = rows.len() as f64;
    rows.iter()
        .map(|row| row.iter().map(|x| x * (1.0 - DAMPING) + DAMPING / n).collect())
        .collect()
}

fn to_bits_grid(rows: &[Vec<f64>]) -> Vec<Vec<u64>> {
    rows.iter().map(|row| row.iter().map(|x| x.to_bits()).collect()).collect()
}

/// Runs the full pipeline on a pre-damping matrix: damp, validate, solve,
/// present.  Returns the sorted ranking and the iterations used.
fn run_pipeline(pre: &[Vec<f64>], max_iterations: u64) -> (Vec<Node>, u64) {
    let n = pre.len();
    let damped = damp(pre);
    let matrix = TransitionMatrix::from_rows(to_bits_grid(&damped)).unwrap();
    let transpose = matrix.transpose();
    let mut tm = vec![vec![0.0f64; n]; n];
    for i in 0..n {
        for j in 0..n {
            tm[i][j] = f64::from_bits(transpose.get(i, j));
        }
    }
    let ids: Vec<u64> = (0..n as u64).collect();
    let uniform = 1.0 / n as f64;
    let start = init_ranks(&ids, uniform.to_bits());
    let mut current: Vec<f64> = start.iter().map(|nd| f64::from_bits(nd.rank_bits)).collect();
    let mut solver = Solver::new(THRESHOLD.to_bits(), max_iterations).unwrap();
    loop {
        let next: Vec<f64> = (0..n)
            .map(|i| (0..n).map(|j| tm[i][j] * current[j]).sum())
            .collect();
        let deltas: Vec<u64> = current
            .iter()
            .zip(next.iter())
            .map(|(a, b)| (a - b).abs().to_bits())
            .collect();
        let outcome = solver.record_sweep(&deltas).unwrap();
        current = next;
        match outcome {
            SweepOutcome::Continue => continue,
            SweepOutcome::Converged | SweepOutcome::CapReached => break,
        }
    }
    let nodes: Vec<Node> = ids
        .iter()
        .map(|&id| Node::new(id, current[id as usize].to_bits()))
        .collect();
    (present(nodes).unwrap(), solver.iterations())
}

#[test]
fn from_rows_rejects_empty() {
    assert_eq!(
        TransitionMatrix::from_rows(Vec::new()).unwrap_err(),
        RankError::InvalidDimension
    );
}

#[test]
fn from_rows_rejects_ragged() {
    let rows = vec![vec![1, 2], vec![3]];
    assert_eq!(
        TransitionMatrix::from_rows(rows).unwrap_err(),
        RankError::InvalidDimension
    );
}

#[test]
fn transpose_moves_entries() {
    let rows = vec![vec![1u64, 2], vec![3, 4]];
    let m = TransitionMatrix::from_rows(rows).unwrap();
    let t = m.transpose();
    assert_eq!(t.size(), 2);
    assert_eq!(t.get(0, 0), 1);
    assert_eq!(t.get(0, 1), 3);
    assert_eq!(t.get(1, 0), 2);
    assert_eq!(t.get(1, 1), 4);
}

#[test]
fn damped_entries_lie_in_the_positivity_band() {
    // Every damped entry is at least a/n and at most (1-a) + a/n.
    let pre = vec![
        vec![1.0, 0.0, 0.0],
        vec![0.2, 0.5, 0.3],
        vec![0.0, 0.0, 1.0],
    ];
    let damped = damp(&pre);
    let m = TransitionMatrix::from_rows(to_bits_grid(&damped)).unwrap();
    let lo = (DAMPING / 3.0).to_bits();
    let hi = ((1.0 - DAMPING) + DAMPING / 3.0).to_bits();
    assert!(m.entries_within(lo, hi));
    // The band is genuinely checked: a stricter floor excludes the zeros'
    // damped value.
    let too_low = (DAMPING / 3.0 + 1e-9).to_bits();
    assert!(!m.entries_within(too_low, hi));
}

#[test]
fn damped_rows_still_sum_to_one() {
    // Damping a row-stochastic matrix keeps every row summing to 1.
    let pre = vec![
        vec![0.2, 0.5, 0.3],
        vec![1.0, 0.0, 0.0],
        vec![0.25, 0.25, 0.5],
    ];
    let damped = damp(&pre);
    for row in &damped {
        let sum: f64 = row.iter().sum();
        assert!((sum - 1.0).abs() < 1e-9);
    }
    // The damped grid is a well-formed matrix within the positivity band.
    let m = TransitionMatrix::from_rows(to_bits_grid(&damped)).unwrap();
    let lo = (DAMPING / 3.0).to_bits();
    let hi = ((1.0 - DAMPING) + DAMPING / 3.0).to_bits();
    assert!(m.entries_within(lo, hi));
}

#[test]
fn solver_rejects_bad_threshold() {
    assert_eq!(
        Solver::new(0.0f64.to_bits(), 10).unwrap_err(),
        RankError::NumericDegeneracy
    );
    assert_eq!(
        Solver::new(f64::NAN.to_bits(), 10).unwrap_err(),
        RankError::NumericDegeneracy
    );
    assert_eq!(
        Solver::new((-1e-6f64).to_bits(), 10).unwrap_err(),
        RankError::NumericDegeneracy
    );
    assert_eq!(
        Solver::new(THRESHOLD.to_bits(), 0).unwrap_err(),
        RankError::InvalidDimension
    );
}

#[test]
fn solver_rejects_non_finite_deltas() {
    let mut solver = Solver::new(THRESHOLD.to_bits(), 10).unwrap();
    let deltas = vec![0.0f64.to_bits(), f64::NAN.to_bits()];
    assert_eq!(
        solver.record_sweep(&deltas).unwrap_err(),
        RankError::NumericDegeneracy
    );
    // The rejected sweep does not count.
    assert_eq!(solver.iterations(), 0);
}

#[test]
fn solver_outcomes_follow_the_threshold_and_cap() {
    let mut solver = Solver::new(THRESHOLD.to_bits(), 2).unwrap();
    let big = vec![1.0f64.to_bits()];
    let small = vec![1e-9f64.to_bits()];
    assert_eq!(solver.record_sweep(&big).unwrap(), SweepOutcome::Continue);
    assert_eq!(solver.record_sweep(&small).unwrap(), SweepOutcome::Converged);
    assert_eq!(solver.iterations(), 2);

    let mut capped = Solver::new(THRESHOLD.to_bits(), 1).unwrap();
    assert_eq!(capped.record_sweep(&big).unwrap(), SweepOutcome::CapReached);
}

#[test]
fn tightening_the_threshold_never_converges_sooner() {
    // The same delta trace, judged under a loose and under a tight
    // threshold: the tight threshold needs at least as many sweeps.
    let trace = vec![
        vec![1e-3f64.to_bits()],
        vec![1e-7f64.to_bits()],
        vec![1e-10f64.to_bits()],
    ];
    let mut sweeps_loose = 0;
    let mut loose = Solver::new(1e-6f64.to_bits(), 10).unwrap();
    for deltas in &trace {
        sweeps_loose += 1;
        if loose.record_sweep(deltas).unwrap() == SweepOutcome::Converged {
            break;
        }
    }
    let mut sweeps_tight = 0;
    let mut tight = Solver::new(1e-9f64.to_bits(), 10).unwrap();
    for deltas in &trace {
        sweeps_tight += 1;
        if tight.record_sweep(deltas).unwrap() == SweepOutcome::Converged {
            break;
        }
    }
    assert_eq!(sweeps_loose, 2);
    assert_eq!(sweeps_tight, 3);
    assert!(sweeps_tight >= sweeps_loose);
}

#[test]
fn init_ranks_sets_the_uniform_prior() {
    let ids = vec![0u64, 1, 2, 3];
    let uniform = (1.0f64 / 4.0).to_bits();
    let ranks = init_ranks(&ids, uniform);
    assert_eq!(ranks.len(), 4);
    for (i, node) in ranks.iter().enumerate() {
        assert_eq!(node.id, i as u64);
        assert_eq!(node.rank_bits, uniform);
    }
}

#[test]
fn single_node_converges_immediately_to_rank_one() {
    let pre = vec![vec![1.0]];
    let damped = damp(&pre);
    assert_eq!(damped[0][0], 1.0);
    let (ranking, iterations) = run_pipeline(&pre, 100);
    assert_eq!(iterations, 1);
    assert_eq!(ranking.len(), 1);
    assert_eq!(ranking[0].id, 0);
    assert_eq!(f64::from_bits(ranking[0].rank_bits), 1.0);
}

#[test]
fn uniform_three_node_matrix_is_unchanged_by_damping() {
    let third = 1.0f64 / 3.0;
    let pre = vec![vec![third; 3]; 3];
    let damped = damp(&pre);
    for row in &damped {
        for &cell in row {
            assert!((cell - third).abs() < 1e-15);
        }
    }
    let (ranking, iterations) = run_pipeline(&pre, 100);
    assert_eq!(iterations, 1);
    for node in &ranking {
        assert!((f64::from_bits(node.rank_bits) - third).abs() < 1e-9);
    }
}

#[test]
fn unique_destination_gets_the_top_rank() {
    // Every source points at node 0 before damping.
    let pre = vec![vec![1.0, 0.0, 0.0]; 3];
    let (ranking, _) = run_pipeline(&pre, 1000);
    assert_eq!(ranking[0].id, 0);
    let top = f64::from_bits(ranking[0].rank_bits);
    for node in &ranking[1..] {
        assert!(top > f64::from_bits(node.rank_bits));
    }
}

#[test]
fn converged_ranks_stay_converged_on_a_rerun() {
    // Feed the converged result back in as the initial vector: the very
    // first sweep is already below the threshold.
    let pre = vec![vec![1.0, 0.0, 0.0]; 3];
    let (ranking, _) = run_pipeline(&pre, 1000);
    let damped = damp(&pre);
    let n = 3;
    let mut current = vec![0.0f64; n];
    for node in &ranking {
        current[node.id as usize] = f64::from_bits(node.rank_bits);
    }
    let next: Vec<f64> = (0..n)
        .map(|i| (0..n).map(|j| damped[j][i] * current[j]).sum())
        .collect();
    let deltas: Vec<u64> = current
        .iter()
        .zip(next.iter())
        .map(|(a, b)| (a - b).abs().to_bits())
        .collect();
    let mut solver = Solver::new(THRESHOLD.to_bits(), 10).unwrap();
    assert_eq!(solver.record_sweep(&deltas).unwrap(), SweepOutcome::Converged);
}

#[test]
fn equal_ranks_order_by_ascending_id_reproducibly() {
    let half = 0.5f64.to_bits();
    let low = 0.3f64.to_bits();
    let nodes = vec![Node::new(1, half), Node::new(0, half), Node::new(2, low)];
    let first = present(nodes.clone()).unwrap();
    let second = present(nodes).unwrap();
    assert_eq!(first, second);
    assert_eq!(first[0].id, 0);
    assert_eq!(first[1].id, 1);
    assert_eq!(first[2].id, 2);
}

#[test]
fn present_rejects_non_finite_ranks() {
    let nodes = vec![Node::new(0, 0.5f64.to_bits()), Node::new(1, f64::NAN.to_bits())];
    assert_eq!(present(nodes).unwrap_err(), RankError::NumericDegeneracy);
    let nodes = vec![Node::new(0, f64::INFINITY.to_bits())];
    assert_eq!(present(nodes).unwrap_err(), RankError::NumericDegeneracy);
}

#[test]
fn sort_by_rank_orders_descending() {
    let mut nodes = vec![
        Node::new(0, 0.1f64.to_bits()),
        Node::new(1, 0.7f64.to_bits()),
        Node::new(2, 0.2f64.to_bits()),
    ];
    sort_by_rank(&mut nodes);
    let ids: Vec<u64> = nodes.iter().map(|n| n.id).collect();
    assert_eq!(ids, vec![1, 2, 0]);
}

#[test]
fn take_top_truncates() {
    let nodes = vec![
        Node::new(0, 0.7f64.to_bits()),
        Node::new(1, 0.2f64.to_bits()),
        Node::new(2, 0.1f64.to_bits()),
    ];
    let top = take_top(&nodes, 2);
    assert_eq!(top.len(), 2);
    assert_eq!(top[0].id, 0);
    assert_eq!(top[1].id, 1);
    assert_eq!(take_top(&nodes, 10).len(), 3);
}

#[test]
fn string_id_keeps_its_fields() {
    let s = StringId::new(7, format!("{:.10}", 0.25));
    assert_eq!(s.id, 7);
    assert_eq!(s.rank, "0.2500000000");
}
