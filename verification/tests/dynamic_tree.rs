use alg_playground::dynamic_tree::policy::{Affine, LazyMapMonoid, PathComposite, VertexAffineSum, VertexSumAdd};
use alg_playground::dynamic_tree::{EulerTourTree, LinkCutTree, LinkCutTreeSubtree, TopTree};
use rand::rngs::StdRng;
use rand::{Rng, SeedableRng};
use std::collections::VecDeque;

fn add_undirected_edge(g: &mut [Vec<usize>], u: usize, v: usize) {
    g[u].push(v);
    g[v].push(u);
}

fn erase_one(vec: &mut Vec<usize>, x: usize) {
    if let Some(pos) = vec.iter().position(|&y| y == x) {
        vec.swap_remove(pos);
    } else {
        panic!("edge not found");
    }
}

fn remove_undirected_edge(g: &mut [Vec<usize>], u: usize, v: usize) {
    erase_one(&mut g[u], v);
    erase_one(&mut g[v], u);
}

fn bfs_connected(g: &[Vec<usize>], s: usize, t: usize) -> bool {
    if s == t {
        return true;
    }
    let n = g.len();
    let mut q = VecDeque::new();
    let mut vis = vec![false; n];
    vis[s] = true;
    q.push_back(s);
    while let Some(v) = q.pop_front() {
        for &to in &g[v] {
            if vis[to] {
                continue;
            }
            if to == t {
                return true;
            }
            vis[to] = true;
            q.push_back(to);
        }
    }
    false
}

fn bfs_path(g: &[Vec<usize>], s: usize, t: usize) -> Option<Vec<usize>> {
    let n = g.len();
    let mut par = vec![usize::MAX; n];
    let mut q = VecDeque::new();
    par[s] = s;
    q.push_back(s);
    while let Some(v) = q.pop_front() {
        if v == t {
            break;
        }
        for &to in &g[v] {
            if par[to] != usize::MAX {
                continue;
            }
            par[to] = v;
            q.push_back(to);
        }
    }
    if par[t] == usize::MAX {
        return None;
    }
    let mut path = Vec::new();
    let mut cur = t;
    while cur != s {
        path.push(cur);
        cur = par[cur];
    }
    path.push(s);
    path.reverse();
    Some(path)
}

fn bfs_component_vertices(g: &[Vec<usize>], s: usize) -> Vec<usize> {
    let n = g.len();
    let mut q = VecDeque::new();
    let mut vis = vec![false; n];
    vis[s] = true;
    q.push_back(s);
    let mut verts = Vec::new();
    while let Some(v) = q.pop_front() {
        verts.push(v);
        for &to in &g[v] {
            if vis[to] {
                continue;
            }
            vis[to] = true;
            q.push_back(to);
        }
    }
    verts
}

fn bfs_component_sum(g: &[Vec<usize>], values: &[i64], s: usize) -> i64 {
    bfs_component_vertices(g, s).into_iter().map(|v| values[v]).sum()
}

fn edge_key(u: usize, v: usize) -> (usize, usize) {
    if u < v { (u, v) } else { (v, u) }
}

fn policy_apply_agg_naive<P: LazyMapMonoid<Key = i64, Agg = i64>>(xs: &[i64], act: P::Act) -> i64 {
    xs.iter().map(|&x| P::act_apply_key(&x, &act)).sum::<i64>()
}

fn compose_affine(f: (i64, i64), g: (i64, i64)) -> (i64, i64) {
    (f.0.wrapping_mul(g.0), f.0.wrapping_mul(g.1).wrapping_add(f.1))
}

#[test]
fn lct_path_sum_disconnected_returns_none() {
    let values = vec![1_i64, 2, 3];
    let mut lct = LinkCutTree::<VertexSumAdd>::new(&values);
    assert!(lct.link(0, 1));
    assert_eq!(lct.path_sum(0, 2), None);
    assert_eq!(lct.path_sum(1, 2), None);
    assert_eq!(lct.path_sum(2, 2), Some(3));
}

#[test]
fn policy_apply_agg_matches_naive_sum_add_and_affine() {
    let mut rng = StdRng::seed_from_u64(0xBADC0FFE_u64);
    for len in 0..=10 {
        let xs = (0..len).map(|_| rng.random_range(-50_i64..=50)).collect::<Vec<_>>();
        let sum = xs.iter().copied().sum::<i64>();

        for _ in 0..50 {
            let delta = rng.random_range(-20_i64..=20);
            let got = VertexSumAdd::act_apply_agg(&sum, &delta, len);
            let expected = policy_apply_agg_naive::<VertexSumAdd>(&xs, delta);
            assert_eq!(got, expected);
        }

        for _ in 0..50 {
            let a = rng.random_range(-3_i64..=3);
            let b = rng.random_range(-10_i64..=10);
            let act = Affine { a, b };
            let got = VertexAffineSum::act_apply_agg(&sum, &act, len);
            let expected = policy_apply_agg_naive::<VertexAffineSum>(&xs, act);
            assert_eq!(got, expected);
        }
    }
}

#[test]
fn lct_path_composite_composes_in_path_order() {
    let values = vec![(1_i64, 1_i64), (2, 0), (1, -3)]; // x+1, 2x, x-3
    let mut lct = LinkCutTree::<PathComposite>::new(&values);
    assert!(lct.link(0, 1));
    assert!(lct.link(1, 2));
    let got = lct.path_fold(0, 2).unwrap();
    let expected = compose_affine(values[2], compose_affine(values[1], values[0]));
    assert_eq!(got, expected);
    let back = lct.path_fold(2, 0).unwrap();
    assert_eq!(back, compose_affine(values[0], compose_affine(values[1], values[2])));
}

#[test]
fn lct_same_vertex_answers() {
    let values = vec![4_i64, 5];
    let mut lct = LinkCutTree::<VertexSumAdd>::new(&values);
    assert!(!lct.link(1, 1));
    assert!(!lct.cut(0, 0));
    assert!(lct.connected(1, 1));
    assert_eq!(lct.path_len(0, 0), Some(1));
    assert_eq!(lct.path_kth(1, 1, 0), Some(1));
    assert_eq!(lct.path_kth(1, 1, 1), None);
    assert!(!lct.connected(0, 1));
    assert!(lct.link(0, 1));
    assert!(!lct.link(1, 0));
    assert_eq!(lct.path_len(0, 1), Some(2));
    assert!(lct.cut(1, 0));
    assert!(!lct.cut(1, 0));
    assert_eq!(lct.len(), 2);
    assert!(!lct.is_empty());
}

#[test]
fn lct_random_against_bfs_with_extra_ops() {
    let mut rng = StdRng::seed_from_u64(0xC0FFEE_u64);
    let n = 30_usize;
    let steps = 20_000_usize;

    let mut values = (0..n).map(|_| rng.random_range(-500_i64..=500)).collect::<Vec<_>>();
    let mut lct = LinkCutTree::<VertexSumAdd>::new(&values);
    let mut g = vec![Vec::<usize>::new(); n];
    let mut edges = Vec::<(usize, usize)>::new();

    for it in 0..steps {
        let op = rng.random_range(0..8);
        match op {
            0 => {
                let u = rng.random_range(0..n);
                let v = rng.random_range(0..n);
                if u == v || bfs_connected(&g, u, v) {
                    continue;
                }
                assert!(lct.link(u, v));
                add_undirected_edge(&mut g, u, v);
                edges.push(edge_key(u, v));
            }
            1 => {
                if edges.is_empty() {
                    continue;
                }
                let idx = rng.random_range(0..edges.len());
                let (u, v) = edges.swap_remove(idx);
                assert!(lct.cut(u, v));
                remove_undirected_edge(&mut g, u, v);
            }
            2 => {
                let u = rng.random_range(0..n);
                let v = rng.random_range(0..n);
                let Some(path) = bfs_path(&g, u, v) else {
                    continue;
                };
                let expected = path.into_iter().map(|x| values[x]).sum::<i64>();
                let got = lct.path_fold(u, v).unwrap();
                assert_eq!(got, expected, "it={it} path_fold({u},{v})");
            }
            3 => {
                let u = rng.random_range(0..n);
                let v = rng.random_range(0..n);
                let Some(path) = bfs_path(&g, u, v) else {
                    continue;
                };
                let delta = rng.random_range(-10_i64..=10);
                assert!(lct.path_apply(u, v, delta));
                for x in path {
                    values[x] += delta;
                }
            }
            4 => {
                let v = rng.random_range(0..n);
                let key = rng.random_range(-500_i64..=500);
                lct.vertex_set(v, key);
                values[v] = key;
            }
            5 => {
                let v = rng.random_range(0..n);
                let delta = rng.random_range(-10_i64..=10);
                lct.vertex_apply(v, delta);
                values[v] += delta;
            }
            6 => {
                let u = rng.random_range(0..n);
                let v = rng.random_range(0..n);
                let Some(path) = bfs_path(&g, u, v) else {
                    continue;
                };
                let k = rng.random_range(0..path.len());
                let got = lct.path_kth(u, v, k).unwrap();
                assert_eq!(got, path[k], "it={it} path_kth({u},{v},{k})");
            }
            _ => {
                let u = rng.random_range(0..n);
                let v = rng.random_range(0..n);
                let expected = bfs_connected(&g, u, v);
                assert_eq!(lct.connected(u, v), expected, "it={it} connected({u},{v})");

                let r = rng.random_range(0..n);
                lct.makeroot(r);
                assert_eq!(lct.find_root(r), r);
            }
        }
    }
}

#[test]
fn ett_random_against_bfs_with_component_and_subtree_ops() {
    let mut rng = StdRng::seed_from_u64(0xE771_2026_u64);
    let n = 50_usize;
    let steps = 8_000_usize;

    let mut values = (0..n).map(|_| rng.random_range(-1_000_i64..=1_000)).collect::<Vec<_>>();
    let mut ett = EulerTourTree::<VertexSumAdd>::new(&values);
    let mut g = vec![Vec::<usize>::new(); n];
    let mut edges = Vec::<(usize, usize)>::new();

    for it in 0..steps {
        let op = rng.random_range(0..9);
        match op {
            0 => {
                let u = rng.random_range(0..n);
                let v = rng.random_range(0..n);
                if u == v || bfs_connected(&g, u, v) {
                    continue;
                }
                assert!(ett.link(u, v));
                add_undirected_edge(&mut g, u, v);
                edges.push(edge_key(u, v));
            }
            1 => {
                if edges.is_empty() {
                    continue;
                }
                let idx = rng.random_range(0..edges.len());
                let (u, v) = edges.swap_remove(idx);
                assert!(ett.cut(u, v));
                remove_undirected_edge(&mut g, u, v);
            }
            2 => {
                let v = rng.random_range(0..n);
                let expected = bfs_component_sum(&g, &values, v);
                let got = ett.component_fold(v);
                assert_eq!(got, expected, "it={it} component_fold({v})");
            }
            3 => {
                let v = rng.random_range(0..n);
                let delta = rng.random_range(-10_i64..=10);
                ett.component_apply(v, delta);
                for x in bfs_component_vertices(&g, v) {
                    values[x] += delta;
                }
            }
            4 => {
                let v = rng.random_range(0..n);
                let key = rng.random_range(-1_000_i64..=1_000);
                ett.vertex_set(v, key);
                values[v] = key;
            }
            5 => {
                let v = rng.random_range(0..n);
                let delta = rng.random_range(-10_i64..=10);
                ett.vertex_apply(v, delta);
                values[v] += delta;
            }
            6 => {
                let v = rng.random_range(0..n);
                let expected = bfs_component_vertices(&g, v).len();
                let got = ett.component_size(v);
                assert_eq!(got, expected, "it={it} component_size({v})");
            }
            7 => {
                if edges.is_empty() {
                    continue;
                }
                let &(a, b) = &edges[rng.random_range(0..edges.len())];
                let (child, parent) = if rng.random_bool(0.5) { (a, b) } else { (b, a) };

                remove_undirected_edge(&mut g, child, parent);
                let expected = bfs_component_sum(&g, &values, child);
                add_undirected_edge(&mut g, child, parent);

                let got = ett.subtree_fold(child, parent);
                assert_eq!(got, expected, "it={it} subtree_fold({child},{parent})");
            }
            _ => {
                if edges.is_empty() {
                    continue;
                }
                let &(a, b) = &edges[rng.random_range(0..edges.len())];
                let (child, parent) = if rng.random_bool(0.5) { (a, b) } else { (b, a) };
                let delta = rng.random_range(-10_i64..=10);

                remove_undirected_edge(&mut g, child, parent);
                for x in bfs_component_vertices(&g, child) {
                    values[x] += delta;
                }
                add_undirected_edge(&mut g, child, parent);

                ett.subtree_apply(child, parent, delta);

                let u = rng.random_range(0..n);
                let v = rng.random_range(0..n);
                assert_eq!(ett.connected(u, v), bfs_connected(&g, u, v));
            }
        }
    }
}

#[test]
fn ett_small_scenario() {
    let values = vec![3_i64, 4, 5];
    let mut ett = EulerTourTree::<VertexSumAdd>::new(&values);
    assert_eq!(ett.len(), 3);
    assert!(ett.connected(2, 2));
    assert!(!ett.link(1, 1));
    assert!(ett.link(0, 1));
    assert!(!ett.link(1, 0));
    assert_eq!(ett.component_sum(0), 7);
    assert_eq!(ett.component_size(1), 2);
    ett.vertex_add(2, 10);
    assert_eq!(ett.vertex_get(2), 15);
    assert!(ett.cut(0, 1));
    assert!(!ett.cut(0, 1));
    assert_eq!(ett.component_size(0), 1);
}

#[test]
fn path_composite_agrees_between_lct_and_top_tree() {
    let values = vec![(1_i64, 1_i64), (2, 0), (1, -3)]; // x+1, 2x, x-3
    let mut lct = LinkCutTree::<PathComposite>::new(&values);
    let mut tt = TopTree::<PathComposite>::new(&values);
    assert!(lct.link(0, 1));
    assert!(lct.link(1, 2));
    assert!(tt.link(0, 1));
    assert!(tt.link(1, 2));

    let got_lct = lct.path_fold(0, 2).unwrap();
    let got_tt = tt.path_fold(0, 2).unwrap();
    let expected = compose_affine(values[2], compose_affine(values[1], values[0]));
    assert_eq!(got_lct, expected);
    assert_eq!(got_tt, expected);
}

#[test]
fn top_tree_edge_ops_affect_path_and_component_fold() {
    let values = vec![5_i64, 7];
    let mut tt = TopTree::<VertexSumAdd>::new(&values);
    assert!(tt.link_with_edge(0, 1, 3));
    assert_eq!(tt.path_sum(0, 1), Some(15));
    assert_eq!(tt.component_sum(0), 15);

    assert_eq!(tt.edge_get(0, 1), Some(3));
    assert!(tt.edge_set(0, 1, 10));
    assert_eq!(tt.path_sum(0, 1), Some(22));

    assert!(tt.edge_apply(0, 1, -2));
    assert_eq!(tt.edge_get(0, 1), Some(8));
    assert_eq!(tt.component_sum(0), 20);
}

#[test]
fn top_tree_random_against_bfs_with_ops() {
    let mut rng = StdRng::seed_from_u64(0x7A7A_2026_u64);
    let n = 30_usize;
    let steps = 8_000_usize;

    let mut values = (0..n).map(|_| rng.random_range(-500_i64..=500)).collect::<Vec<_>>();
    let mut tt = TopTree::<VertexSumAdd>::new(&values);
    let mut g = vec![Vec::<usize>::new(); n];
    let mut edges = Vec::<(usize, usize)>::new();

    for it in 0..steps {
        let op = rng.random_range(0..11);
        match op {
            0 => {
                let u = rng.random_range(0..n);
                let v = rng.random_range(0..n);
                if u == v || bfs_connected(&g, u, v) {
                    continue;
                }
                assert!(tt.link(u, v));
                add_undirected_edge(&mut g, u, v);
                edges.push(edge_key(u, v));
            }
            1 => {
                if edges.is_empty() {
                    continue;
                }
                let idx = rng.random_range(0..edges.len());
                let (u, v) = edges.swap_remove(idx);
                assert!(tt.cut(u, v));
                remove_undirected_edge(&mut g, u, v);
            }
            2 => {
                let u = rng.random_range(0..n);
                let v = rng.random_range(0..n);
                let Some(path) = bfs_path(&g, u, v) else {
                    continue;
                };
                let expected = path.into_iter().map(|x| values[x]).sum::<i64>();
                let got = tt.path_fold(u, v).unwrap();
                assert_eq!(got, expected, "it={it} path_fold({u},{v})");
            }
            3 => {
                let v = rng.random_range(0..n);
                let expected = bfs_component_sum(&g, &values, v);
                let got = tt.component_fold(v);
                assert_eq!(got, expected, "it={it} component_fold({v})");
            }
            4 => {
                let u = rng.random_range(0..n);
                let v = rng.random_range(0..n);
                let Some(path) = bfs_path(&g, u, v) else {
                    continue;
                };
                let delta = rng.random_range(-10_i64..=10);
                assert!(tt.path_apply(u, v, delta));
                for x in path {
                    values[x] += delta;
                }
            }
            5 => {
                let v = rng.random_range(0..n);
                let delta = rng.random_range(-10_i64..=10);
                tt.component_apply(v, delta);
                for x in bfs_component_vertices(&g, v) {
                    values[x] += delta;
                }
            }
            6 => {
                let v = rng.random_range(0..n);
                let key = rng.random_range(-500_i64..=500);
                tt.vertex_set(v, key);
                values[v] = key;
            }
            7 => {
                let v = rng.random_range(0..n);
                let delta = rng.random_range(-10_i64..=10);
                tt.vertex_apply(v, delta);
                values[v] += delta;
            }
            8 => {
                let v = rng.random_range(0..n);
                let expected = bfs_component_vertices(&g, v).len();
                let got = tt.component_size(v);
                assert_eq!(got, expected, "it={it} component_size({v})");
            }
            9 => {
                if edges.is_empty() {
                    continue;
                }
                let &(a, b) = &edges[rng.random_range(0..edges.len())];
                let (child, parent) = if rng.random_bool(0.5) { (a, b) } else { (b, a) };

                remove_undirected_edge(&mut g, child, parent);
                let expected = bfs_component_sum(&g, &values, child);
                add_undirected_edge(&mut g, child, parent);

                let got = tt.subtree_fold(child, parent);
                assert_eq!(got, expected, "it={it} subtree_fold({child},{parent})");
            }
            _ => {
                if !edges.is_empty() && rng.random_bool(0.5) {
                    let &(a, b) = &edges[rng.random_range(0..edges.len())];
                    let (child, parent) = if rng.random_bool(0.5) { (a, b) } else { (b, a) };
                    let delta = rng.random_range(-10_i64..=10);

                    remove_undirected_edge(&mut g, child, parent);
                    for x in bfs_component_vertices(&g, child) {
                        values[x] += delta;
                    }
                    add_undirected_edge(&mut g, child, parent);

                    tt.subtree_apply(child, parent, delta);
                } else {
                    let u = rng.random_range(0..n);
                    let v = rng.random_range(0..n);
                    if let Some(path) = bfs_path(&g, u, v) {
                        let k = rng.random_range(0..path.len());
                        let got = tt.path_kth(u, v, k).unwrap();
                        assert_eq!(got, path[k], "it={it} path_kth({u},{v},{k})");
                    }
                }

                let u = rng.random_range(0..n);
                let v = rng.random_range(0..n);
                assert_eq!(tt.connected(u, v), bfs_connected(&g, u, v));
            }
        }
    }
}

#[test]
fn top_tree_same_vertex_and_missing_edge_answers() {
    let values = vec![4_i64, 5, 6];
    let mut tt = TopTree::<VertexSumAdd>::new(&values);
    assert_eq!(tt.len(), 3);
    assert!(!tt.is_empty());
    assert!(!tt.link(2, 2));
    assert!(!tt.cut(0, 0));
    assert!(tt.connected(1, 1));
    assert!(!tt.connected(0, 1));
    assert_eq!(tt.path_len(0, 0), Some(1));
    assert_eq!(tt.path_kth(1, 1, 0), Some(1));
    assert_eq!(tt.path_kth(1, 1, 1), None);
    assert_eq!(tt.path_sum(0, 1), None);
    assert_eq!(tt.edge_get(0, 1), None);
    assert!(!tt.edge_set(0, 1, 9));
    assert!(!tt.cut(0, 1));
    assert_eq!(tt.component_size(2), 1);
    assert_eq!(tt.component_sum(2), 6);

    assert!(tt.link(0, 1));
    assert!(!tt.link(1, 0));
    assert_eq!(tt.edge_get(1, 0), Some(0));
    assert!(tt.link(1, 2));
    assert_eq!(tt.path_len(0, 2), Some(3));
    assert_eq!(tt.path_kth(0, 2, 1), Some(1));
    assert_eq!(tt.path_kth(2, 0, 2), Some(0));
    assert_eq!(tt.path_kth(0, 2, 3), None);
    assert_eq!(tt.component_size(0), 3);
    assert_eq!(tt.subtree_fold(2, 1), 6);
    assert_eq!(tt.subtree_fold(1, 2), 9);
    tt.subtree_apply(0, 1, 10);
    assert_eq!(tt.vertex_get(0), 14);
    assert_eq!(tt.component_sum(1), 25);
    tt.makeroot(2);
    let r = tt.find_root(0);
    assert!(r < 3);
    assert!(tt.cut(1, 0));
    assert!(!tt.connected(0, 2));
    assert_eq!(tt.path_sum(1, 2), Some(11));
}

#[test]
fn top_tree_reserve_keeps_contents() {
    let values = vec![1_i64, 2];
    let mut tt = TopTree::<VertexSumAdd>::new(&values);
    tt.reserve_nodes(100);
    assert!(tt.link(0, 1));
    assert_eq!(tt.path_sum(0, 1), Some(3));
}

#[test]
fn lct_subtree_random_against_bfs_with_ops() {
    let mut rng = StdRng::seed_from_u64(0x5B7_2026_u64);
    let n = 30_usize;
    let steps = 8_000_usize;

    let mut values = (0..n).map(|_| rng.random_range(-500_i64..=500)).collect::<Vec<_>>();
    let mut t = LinkCutTreeSubtree::<VertexSumAdd>::new(&values);
    let mut g = vec![Vec::<usize>::new(); n];
    let mut edges = Vec::<(usize, usize)>::new();

    for it in 0..steps {
        let op = rng.random_range(0..11);
        match op {
            0 => {
                let u = rng.random_range(0..n);
                let v = rng.random_range(0..n);
                if u == v || bfs_connected(&g, u, v) {
                    assert!(!t.link(u, v) || u != v);
                    continue;
                }
                assert!(t.link(u, v));
                add_undirected_edge(&mut g, u, v);
                edges.push(edge_key(u, v));
            }
            1 => {
                if edges.is_empty() {
                    continue;
                }
                let idx = rng.random_range(0..edges.len());
                let (u, v) = edges.swap_remove(idx);
                assert!(t.cut(u, v));
                remove_undirected_edge(&mut g, u, v);
            }
            2 => {
                let u = rng.random_range(0..n);
                let v = rng.random_range(0..n);
                match bfs_path(&g, u, v) {
                    Some(path) => {
                        let expected = path.iter().map(|&x| values[x]).sum::<i64>();
                        assert_eq!(t.path_fold(u, v), Some(expected), "it={it} path_fold({u},{v})");
                        assert_eq!(t.path_len(u, v), Some(path.len()));
                    }
                    None => assert_eq!(t.path_sum(u, v), None),
                }
            }
            3 => {
                let v = rng.random_range(0..n);
                let expected = bfs_component_sum(&g, &values, v);
                assert_eq!(t.component_sum(v), expected, "it={it} component_fold({v})");
            }
            4 => {
                let u = rng.random_range(0..n);
                let v = rng.random_range(0..n);
                let Some(path) = bfs_path(&g, u, v) else {
                    continue;
                };
                let delta = rng.random_range(-10_i64..=10);
                assert!(t.path_apply(u, v, delta));
                for x in path {
                    values[x] += delta;
                }
            }
            5 => {
                let v = rng.random_range(0..n);
                let delta = rng.random_range(-10_i64..=10);
                t.component_apply(v, delta);
                for x in bfs_component_vertices(&g, v) {
                    values[x] += delta;
                }
            }
            6 => {
                let v = rng.random_range(0..n);
                let key = rng.random_range(-500_i64..=500);
                t.vertex_set(v, key);
                values[v] = key;
                assert_eq!(t.vertex_get(v), key);
            }
            7 => {
                let v = rng.random_range(0..n);
                let delta = rng.random_range(-10_i64..=10);
                t.vertex_add(v, delta);
                values[v] += delta;
            }
            8 => {
                let v = rng.random_range(0..n);
                let expected = bfs_component_vertices(&g, v).len();
                assert_eq!(t.component_size(v), expected, "it={it} component_size({v})");
            }
            9 => {
                if edges.is_empty() {
                    continue;
                }
                let &(a, b) = &edges[rng.random_range(0..edges.len())];
                let (child, parent) = if rng.random_bool(0.5) { (a, b) } else { (b, a) };
                remove_undirected_edge(&mut g, child, parent);
                let expected = bfs_component_sum(&g, &values, child);
                add_undirected_edge(&mut g, child, parent);
                assert_eq!(t.subtree_fold(child, parent), expected, "it={it} subtree_fold({child},{parent})");
            }
            _ => {
                if !edges.is_empty() && rng.random_bool(0.5) {
                    let &(a, b) = &edges[rng.random_range(0..edges.len())];
                    let (child, parent) = if rng.random_bool(0.5) { (a, b) } else { (b, a) };
                    let delta = rng.random_range(-10_i64..=10);
                    remove_undirected_edge(&mut g, child, parent);
                    for x in bfs_component_vertices(&g, child) {
                        values[x] += delta;
                    }
                    add_undirected_edge(&mut g, child, parent);
                    t.subtree_apply(child, parent, delta);
                } else {
                    let u = rng.random_range(0..n);
                    let v = rng.random_range(0..n);
                    if let Some(path) = bfs_path(&g, u, v) {
                        let k = rng.random_range(0..path.len());
                        assert_eq!(t.path_kth(u, v, k), Some(path[k]), "it={it} path_kth({u},{v},{k})");
                        assert_eq!(t.path_kth(u, v, path.len()), None);
                    }
                }
                let u = rng.random_range(0..n);
                let v = rng.random_range(0..n);
                assert_eq!(t.connected(u, v), bfs_connected(&g, u, v));
                let r = t.find_root(u);
                assert!(bfs_connected(&g, u, r));
            }
        }
    }
}

#[test]
fn lct_subtree_small_scenario() {
    let values = vec![1_i64, 2, 3, 4];
    let mut t = LinkCutTreeSubtree::<VertexSumAdd>::new(&values);
    assert_eq!(t.len(), 4);
    assert!(!t.is_empty());
    assert!(t.link(0, 1));
    assert!(t.link(1, 2));
    assert!(t.link(1, 3));
    assert!(!t.link(0, 3));
    assert_eq!(t.component_sum(2), 10);
    assert_eq!(t.component_size(3), 4);
    assert_eq!(t.subtree_fold(1, 0), 9);
    assert_eq!(t.subtree_fold(0, 1), 1);
    t.subtree_apply(1, 0, 10);
    assert_eq!(t.component_sum(0), 40);
    assert_eq!(t.path_sum(0, 3), Some(1 + 12 + 14));
    t.makeroot(3);
    assert!(t.cut(1, 3));
    assert!(!t.cut(1, 3));
    assert_eq!(t.component_size(3), 1);
    assert_eq!(t.component_sum(3), 14);
    assert_eq!(t.component_sum(0), 26);
}
