use alg_playground::row_minima::{larsch_shortest_path, monotone_minima, simple_larsch_shortest_path, smawk, Larsch};

fn assert_row_minima<F>(rows: usize, cols: usize, cost: &F, argmins: &[usize])
where
    F: Fn(usize, usize) -> u64,
{
    for (row, &argmin) in argmins.iter().enumerate().take(rows) {
        let mut best_val = cost(row, 0);
        for col in 1..cols {
            let value = cost(row, col);
            if value < best_val {
                best_val = value;
            }
        }
        let got_val = cost(row, argmin);
        assert_eq!(got_val, best_val, "row {row} argmin mismatch");
    }
}

fn brute_force_dp<F>(n: usize, cost: &F) -> Vec<u64>
where
    F: Fn(usize, usize) -> u64,
{
    let inf = u64::MAX / 4;
    let mut dp = vec![inf; n];
    if n == 0 {
        return dp;
    }
    dp[0] = 0;
    for row in 1..n {
        let mut best = inf;
        for (col, value) in dp.iter().enumerate().take(row) {
            let candidate = value + cost(row, col);
            if candidate < best {
                best = candidate;
            }
        }
        dp[row] = best;
    }
    dp
}

#[test]
fn monotone_minima_matches_bruteforce() {
    let rows = 16;
    let cols = 20;
    let cost = |i: usize, k: usize| {
        let diff = i.abs_diff(k) as u64;
        diff * diff
    };
    let got = monotone_minima(rows, cols, &cost);
    assert_row_minima(rows, cols, &cost, &got);
}

#[test]
fn smawk_matches_bruteforce() {
    let rows = 18;
    let cols = 23;
    let cost = |i: usize, k: usize| {
        let diff = i.abs_diff(k) as u64;
        diff * diff
    };
    let got = smawk(rows, cols, &cost);
    assert_row_minima(rows, cols, &cost, &got);
}

#[test]
fn simple_larsch_matches_bruteforce() {
    let n = 20;
    let cost = |i: usize, k: usize| {
        if k >= i {
            return u64::MAX / 4;
        }
        let diff = i.abs_diff(k) as u64;
        diff * diff
    };
    let expected = brute_force_dp(n, &cost);
    let got = simple_larsch_shortest_path(n, &cost);
    assert_eq!(got, expected);
}

#[test]
fn simple_larsch_handles_two_nodes() {
    let n = 2;
    let cost = |row: usize, col: usize| {
        if col >= row {
            return u64::MAX / 4;
        }
        let diff = row.abs_diff(col) as u64;
        diff * diff
    };
    let expected = brute_force_dp(n, &cost);
    let got = simple_larsch_shortest_path(n, &cost);
    assert_eq!(got, expected);
}

#[test]
fn monotone_minima_exact_leftmost_argmins() {
    // each row's minimum value is 0 at column i / 2, so the leftmost argmins are exact
    let cost = |i: usize, k: usize| (i / 2).abs_diff(k) as u64;
    let got = monotone_minima(6, 4, &cost);
    assert_eq!(got, vec![0, 0, 1, 1, 2, 2]);
    let got = smawk(6, 4, &cost);
    assert_eq!(got, vec![0, 0, 1, 1, 2, 2]);
}

#[test]
fn monotone_minima_ties_take_the_leftmost_column() {
    let cost = |_i: usize, _k: usize| 7_u64;
    assert_eq!(monotone_minima(3, 5, &cost), vec![0, 0, 0]);
    assert_eq!(smawk(3, 5, &cost).len(), 3);
}

#[test]
fn row_minima_on_empty_inputs() {
    let cost = |_i: usize, _k: usize| 0_u64;
    assert!(monotone_minima(0, 3, &cost).is_empty());
    assert!(smawk(0, 3, &cost).is_empty());
    assert!(simple_larsch_shortest_path(0, &cost).is_empty());
    assert_eq!(simple_larsch_shortest_path(1, &cost), vec![0]);
}

#[test]
fn larsch_matches_bruteforce() {
    let n = 22;
    let cost = move |i: usize, k: usize| {
        if k >= i {
            return u64::MAX / 4;
        }
        let diff = i.abs_diff(k) as u64;
        diff * diff
    };
    let expected = brute_force_dp(n, &cost);
    let got = larsch_shortest_path(n, cost);
    assert_eq!(got, expected);
}

#[test]
fn larsch_small_sizes() {
    let cost = |i: usize, k: usize| if k >= i { u64::MAX / 4 } else { (i - k) as u64 * 3 };
    assert!(larsch_shortest_path(0, cost).is_empty());
    assert_eq!(larsch_shortest_path(1, cost), vec![0]);
    assert_eq!(larsch_shortest_path(2, cost), vec![0, 3]);
    assert_eq!(larsch_shortest_path(5, cost), brute_force_dp(5, &cost));
}

#[test]
fn larsch_answers_rows_in_order() {
    // row i has its minimum at column i / 2 among columns 0..=i
    let cost = |i: usize, k: usize| if k > i { 1_000 } else { (i / 2).abs_diff(k) as u64 };
    let mut larsch = Larsch::new(9, cost);
    for i in 0..9 {
        let j = larsch.get_argmin();
        assert!(j <= i);
        assert_eq!(cost(i, j), 0, "row {i}");
    }
}
