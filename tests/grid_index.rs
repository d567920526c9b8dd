use boids::grid::{wrap_cell, Grid};
use boids::settings::SimError;

fn members(g: &Grid, i: usize, j: usize) -> Vec<usize> {
    g.cells[i][j].agent_indices.clone()
}

#[test]
fn wrap_cell_handles_both_signs() {
    assert_eq!(wrap_cell(0, 5), 0);
    assert_eq!(wrap_cell(7, 5), 2);
    assert_eq!(wrap_cell(-1, 5), 4);
    assert_eq!(wrap_cell(-5, 5), 0);
    assert_eq!(wrap_cell(-6, 5), 4);
    assert_eq!(wrap_cell(i64::MIN, 7), ((i64::MIN as i128).rem_euclid(7)) as usize);
}

#[test]
fn wrap_cell_is_idempotent() {
    for k in -40i64..40 {
        let once = wrap_cell(k, 6);
        assert_eq!(wrap_cell(once as i64, 6), once);
    }
}

#[test]
fn grid_needs_a_cell() {
    assert!(matches!(Grid::new(0), Err(SimError::InvalidConfiguration)));
    let g = Grid::new(3).unwrap();
    assert_eq!(g.num_cells, 3);
    for i in 0..3 {
        for j in 0..3 {
            assert!(members(&g, i, j).is_empty());
        }
    }
}

#[test]
fn cell_finder_wraps_small_overshoot() {
    let g = Grid::new(10).unwrap();
    assert_eq!(g.cell_finder(3, 9), (3, 9));
    assert_eq!(g.cell_finder(-1, 10), (9, 0));
}

#[test]
fn push_agent_appends_to_its_cell() {
    let mut g = Grid::new(4).unwrap();
    g.push_agent(1, 2, 0);
    g.push_agent(1, 2, 5);
    g.push_agent(-1, 0, 3);
    assert_eq!(members(&g, 1, 2), vec![0, 5]);
    assert_eq!(members(&g, 3, 0), vec![3]);
}

#[test]
fn reindex_moves_only_agents_that_left() {
    let mut g = Grid::new(3).unwrap();
    g.insert(0, 0, 0);
    g.insert(0, 0, 1);
    g.insert(0, 0, 2);
    g.insert(2, 2, 3);
    let homes = vec![(0, 0), (1, 2), (0, 0), (0, 0)];
    g.reindex(&homes);
    assert_eq!(members(&g, 0, 0), vec![0, 2, 3]);
    assert_eq!(members(&g, 1, 2), vec![1]);
    assert!(members(&g, 2, 2).is_empty());
}

#[test]
fn reindex_leaves_each_agent_in_exactly_one_home_bucket() {
    let n = 4usize;
    let mut g = Grid::new(n).unwrap();
    let count = 40usize;
    let mut seed: u64 = 12345;
    let mut next = || {
        seed = seed.wrapping_mul(6364136223846793005).wrapping_add(1442695040888963407);
        (seed >> 33) as usize
    };
    for a in 0..count {
        g.insert(next() % n, next() % n, a);
    }
    let homes: Vec<(usize, usize)> = (0..count).map(|_| (next() % n, next() % n)).collect();
    g.reindex(&homes);
    for a in 0..count {
        let mut found = Vec::new();
        for i in 0..n {
            for j in 0..n {
                let b = members(&g, i, j);
                let times = b.iter().filter(|&&x| x == a).count();
                for _ in 0..times {
                    found.push((i, j));
                }
            }
        }
        assert_eq!(found, vec![homes[a]]);
    }
}

#[test]
fn remove_agent_keeps_the_others_in_order() {
    let mut g = Grid::new(2).unwrap();
    g.insert(1, 1, 4);
    g.insert(1, 1, 7);
    g.insert(1, 1, 9);
    g.insert(0, 1, 2);
    g.remove_agent(7);
    assert_eq!(members(&g, 1, 1), vec![4, 9]);
    assert_eq!(members(&g, 0, 1), vec![2]);
}

#[test]
fn window_scans_rows_then_columns_with_wraparound() {
    let mut g = Grid::new(5).unwrap();
    let mut a = 0usize;
    for i in 0..5 {
        for j in 0..5 {
            g.insert(i, j, a);
            a += 1;
        }
    }
    // cell (i, j) holds agent 5 i + j
    let w = g.neighbors_window(0, 0, 1, 3);
    assert_eq!(w, vec![24, 20, 21, 4, 0, 1, 9, 5, 6]);
    let w = g.neighbors_window(2, 2, 2, 4);
    let mut expect = Vec::new();
    for i in 0..4 {
        for j in 0..4 {
            expect.push(5 * i + j);
        }
    }
    assert_eq!(w, expect);
}

#[test]
fn window_on_a_single_cell_repeats_it() {
    let mut g = Grid::new(1).unwrap();
    g.insert(0, 0, 3);
    assert_eq!(g.neighbors_window(0, 0, 1, 3), vec![3; 9]);
}

fn periodic_distance(a: (f64, f64), b: (f64, f64), l: f64) -> f64 {
    let d = |u: f64, v: f64| ((v - u + l / 2.0 + l) % l) - l / 2.0;
    let dx = d(a.0, b.0);
    let dy = d(a.1, b.1);
    (dx * dx + dy * dy).sqrt()
}

#[test]
fn window_neighbours_match_all_pairs() {
    let l = 10.0f64;
    let r = 1.0f64;
    let n = (l / r).floor() as usize;
    let side = l / n as f64;
    let mut g = Grid::new(n).unwrap();
    let mut seed: u64 = 99;
    let mut unit = || {
        seed = seed.wrapping_mul(6364136223846793005).wrapping_add(1442695040888963407);
        (seed >> 11) as f64 / (1u64 << 53) as f64
    };
    let pos: Vec<(f64, f64)> = (0..300).map(|_| (unit() * l, unit() * l)).collect();
    let cell = |p: (f64, f64)| ((p.0 / side).floor() as i64, (p.1 / side).floor() as i64);
    for (a, p) in pos.iter().enumerate() {
        let (fx, fy) = cell(*p);
        g.push_agent(fx, fy, a);
    }
    for (a, p) in pos.iter().enumerate() {
        let (fx, fy) = cell(*p);
        let (ci, cj) = g.cell_finder(fx, fy);
        let mut from_window: Vec<usize> = g
            .neighbors_window(ci, cj, 1, 3)
            .into_iter()
            .filter(|&b| b != a && periodic_distance(*p, pos[b], l) < r)
            .collect();
        from_window.sort();
        let all: Vec<usize> = (0..pos.len())
            .filter(|&b| b != a && periodic_distance(*p, pos[b], l) < r)
            .collect();
        assert_eq!(from_window, all);
    }
}

#[test]
fn reindex_appends_arrivals_in_scan_order() {
    let mut g = Grid::new(3).unwrap();
    g.insert(2, 2, 5);
    g.insert(0, 1, 7);
    g.insert(0, 1, 8);
    g.insert(1, 1, 1);
    let mut homes = vec![(0, 0); 9];
    homes[5] = (1, 1);
    homes[7] = (1, 1);
    homes[8] = (0, 1);
    homes[1] = (1, 1);
    g.reindex(&homes);
    assert_eq!(members(&g, 1, 1), vec![1, 7, 5]);
    assert_eq!(members(&g, 0, 1), vec![8]);
    assert!(members(&g, 2, 2).is_empty());
}
