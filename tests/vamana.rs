use lance_vamana::vamana::{robust_prune, ConfigError, VamanaBuilder};
use rand::rngs::StdRng;
use rand::{Rng, SeedableRng};
use std::collections::{HashSet, VecDeque};

fn random_vectors(n: usize, dim: usize, seed: u64) -> Vec<i16> {
    let mut rng = StdRng::seed_from_u64(seed);
    (0..n * dim).map(|_| rng.gen_range(-1000i16..1000)).collect()
}

fn row_ids(n: usize) -> Vec<u64> {
    (0..n as u64).map(|i| 1000 + i).collect()
}

fn check_invariants(g: &VamanaBuilder, r: usize) {
    let n = g.len();
    for i in 0..n {
        let nb = g.neighbors(i);
        let set: HashSet<usize> = nb.iter().copied().collect();
        assert_eq!(set.len(), nb.len(), "duplicate neighbor of {}", i);
        assert!(!set.contains(&i), "self loop at {}", i);
        assert!(nb.len() <= r, "vertex {} has {} neighbors", i, nb.len());
        assert!(nb.iter().all(|&j| j < n));
        assert_eq!(g.vertices[i].id, i);
    }
}

fn reaches_all(g: &VamanaBuilder, start: usize) -> bool {
    let n = g.len();
    let mut adj = vec![Vec::new(); n];
    for i in 0..n {
        for j in g.neighbors(i) {
            adj[i].push(j);
            adj[j].push(i);
        }
    }
    let mut seen = vec![false; n];
    let mut queue = VecDeque::new();
    seen[start] = true;
    queue.push_back(start);
    while let Some(v) = queue.pop_front() {
        for &w in &adj[v] {
            if !seen[w] {
                seen[w] = true;
                queue.push_back(w);
            }
        }
    }
    seen.iter().all(|&s| s)
}

fn hops(g: &VamanaBuilder, from: usize, to: usize) -> usize {
    let mut dist = vec![usize::MAX; g.len()];
    let mut queue = VecDeque::new();
    dist[from] = 0;
    queue.push_back(from);
    while let Some(v) = queue.pop_front() {
        for w in g.neighbors(v) {
            if dist[w] == usize::MAX {
                dist[w] = dist[v] + 1;
                queue.push_back(w);
            }
        }
    }
    dist[to]
}

fn sq_dist(a: &[i16], b: &[i16]) -> u64 {
    a.iter().zip(b).map(|(&x, &y)| ((x as i64 - y as i64) * (x as i64 - y as i64)) as u64).sum()
}

fn two_clusters() -> Vec<i16> {
    let offsets: [(i16, i16); 10] = [(0, 0), (0, 1), (1, 0), (1, 1), (0, 2), (2, 0), (1, 2), (2, 1), (2, 2), (0, 3)];
    let mut v = Vec::new();
    for &(x, y) in &offsets {
        v.push(x);
        v.push(y);
    }
    for &(x, y) in &offsets {
        v.push(10 + x);
        v.push(y);
    }
    v
}

#[test]
fn test_init() {
    let mut rng = StdRng::seed_from_u64(7);
    let inited_graph = VamanaBuilder::try_init(random_vectors(200, 64, 1), 64, row_ids(200), 10, &mut rng).unwrap();

    for (vertex, id) in inited_graph.vertices.iter().zip(0..) {
        assert!(vertex.neighbors.len() > 0);
        assert!(vertex.neighbors.len() >= 10);
        assert_eq!(vertex.id, id);
        assert_eq!(vertex.row_id, 1000 + id as u64);
        assert!(!vertex.neighbors.contains(&id));
    }
}

#[test]
fn test_build_index() {
    let graph = VamanaBuilder::try_new(random_vectors(200, 64, 2), 64, row_ids(200), 50, 7, 5, 100, 3).unwrap();
    check_invariants(&graph, 50);
}

#[test]
fn init_mirrors_every_edge() {
    let mut rng = StdRng::seed_from_u64(11);
    let g = VamanaBuilder::try_init(random_vectors(30, 4, 5), 4, row_ids(30), 3, &mut rng).unwrap();
    for i in 0..30 {
        for j in g.neighbors(i) {
            assert!(g.neighbors(j).contains(&i));
        }
    }
}

#[test]
fn tiny_square() {
    let vectors = vec![0, 0, 0, 1, 1, 0, 1, 1];
    let g = VamanaBuilder::try_new(vectors, 2, row_ids(4), 2, 1, 1, 4, 0).unwrap();
    assert_eq!(g.find_medoid(), 0);
    check_invariants(&g, 2);
    assert!(reaches_all(&g, 0));
    for i in 0..4 {
        // the two corners adjacent to i, at distance one
        let closest: HashSet<usize> = (0..4).filter(|&j| j != i && g.distance(i, j) == 1).collect();
        let got: HashSet<usize> = g.neighbors(i).into_iter().collect();
        assert_eq!(got, closest, "vertex {}", i);
    }
}

#[test]
fn points_on_a_line() {
    let vectors: Vec<i16> = (0..10).collect();
    let g = VamanaBuilder::try_new(vectors, 1, row_ids(10), 2, 1, 1, 5, 4).unwrap();
    assert_eq!(g.find_medoid(), 4);
    check_invariants(&g, 2);
    for i in 0..10usize {
        for j in g.neighbors(i) {
            assert_eq!((i as i64 - j as i64).abs(), 1, "vertex {} linked to {}", i, j);
        }
    }
    assert!(reaches_all(&g, 4));
}

#[test]
fn two_clusters_search() {
    let g = VamanaBuilder::try_new(two_clusters(), 2, row_ids(20), 4, 6, 5, 10, 9).unwrap();
    check_invariants(&g, 4);
    let medoid = g.find_medoid();
    assert!(reaches_all(&g, medoid));
    for q in 0..20 {
        let query = g.get_vector(q);
        let (top, _) = g.greedy_search(medoid, &query, 1, 10);
        assert_eq!(top.len(), 1);
        assert_eq!(top[0] < 10, q < 10);
        assert_eq!(g.distance(top[0], q), 0);
        assert!(hops(&g, medoid, top[0]) <= 5);
    }
}

#[test]
fn degenerate_dataset() {
    let vectors = vec![3i16; 8 * 3];
    let g = VamanaBuilder::try_new(vectors, 3, row_ids(8), 3, 1, 1, 8, 1).unwrap();
    assert_eq!(g.find_medoid(), 0);
    check_invariants(&g, 3);
    let all: Vec<usize> = (0..8).collect();
    let out = robust_prune(&g, 0, &all, 1, 1, 3);
    // every candidate is at distance zero, so the first pick stands in for all
    assert_eq!(out.len(), 1);
    assert_ne!(out[0], 0);
}

#[test]
fn degree_not_below_count_is_rejected() {
    let r = VamanaBuilder::try_new(random_vectors(10, 2, 3), 2, row_ids(10), 50, 1, 1, 10, 0);
    assert_eq!(r.err(), Some(ConfigError::DegreeTooLarge));
    let mut rng = StdRng::seed_from_u64(0);
    let r = VamanaBuilder::try_init(random_vectors(10, 2, 3), 2, row_ids(10), 50, &mut rng);
    assert_eq!(r.err(), Some(ConfigError::DegreeTooLarge));
}

#[test]
fn other_config_errors() {
    let e = |v: Vec<i16>, d: usize, n: usize, r: usize, an: u32, ad: u32, l: usize| {
        VamanaBuilder::try_new(v, d, row_ids(n), r, an, ad, l, 0).err()
    };
    assert_eq!(e(vec![], 2, 0, 1, 1, 1, 4), Some(ConfigError::EmptyDataset));
    assert_eq!(e(vec![], 0, 3, 1, 1, 1, 4), Some(ConfigError::ZeroDimension));
    assert_eq!(e(vec![1, 2, 3], 2, 3, 1, 1, 1, 4), Some(ConfigError::LengthMismatch));
    assert_eq!(e(vec![0; 6], 2, 3, 1, 9, 10, 4), Some(ConfigError::AlphaBelowOne));
    assert_eq!(e(vec![0; 6], 2, 3, 1, 1, 0, 4), Some(ConfigError::AlphaBelowOne));
}

#[test]
fn zero_search_size_is_accepted() {
    let g = VamanaBuilder::try_new(random_vectors(10, 2, 3), 2, row_ids(10), 2, 1, 1, 0, 0).unwrap();
    check_invariants(&g, 2);
    let (res, visited) = g.greedy_search(0, &g.get_vector(3), 0, 0);
    assert!(res.is_empty());
    assert_eq!(visited[0], 0);
}

#[test]
fn same_seed_same_graph() {
    let a = VamanaBuilder::try_new(two_clusters(), 2, row_ids(20), 4, 6, 5, 10, 42).unwrap();
    let b = VamanaBuilder::try_new(two_clusters(), 2, row_ids(20), 4, 6, 5, 10, 42).unwrap();
    for i in 0..20 {
        assert_eq!(a.neighbors(i), b.neighbors(i));
    }
    assert_eq!(a.find_medoid(), b.find_medoid());
}

#[test]
fn random_graph_is_connected_and_bounded() {
    let g = VamanaBuilder::try_new(random_vectors(200, 8, 6), 8, row_ids(200), 8, 6, 5, 20, 12).unwrap();
    check_invariants(&g, 8);
    assert!(reaches_all(&g, g.find_medoid()));
}

#[test]
fn third_pass_keeps_invariants() {
    let mut g = VamanaBuilder::try_new(random_vectors(100, 4, 8), 4, row_ids(100), 6, 6, 5, 16, 5).unwrap();
    let medoid = g.find_medoid();
    let mut rng = StdRng::seed_from_u64(77);
    g.index_pass(medoid, 6, 5, 6, 16, &mut rng);
    check_invariants(&g, 6);
    for i in 0..100 {
        assert_eq!(g.vertices[i].row_id, 1000 + i as u64);
    }
}

fn check_prune(g: &VamanaBuilder, i: usize, visited: &[usize], an: u32, ad: u32, r: usize) {
    let out = robust_prune(g, i, &visited.to_vec(), an, ad, r);
    assert!(out.len() <= r);
    let mut cands: HashSet<usize> = visited.iter().copied().collect();
    cands.extend(g.neighbors(i));
    cands.remove(&i);
    for &p in &out {
        assert!(cands.contains(&p));
    }
    if out.len() < r {
        for &v in &cands {
            if out.contains(&v) {
                continue;
            }
            let ok = out
                .iter()
                .any(|&p| an as u128 * g.distance(p, v) as u128 <= ad as u128 * g.distance(i, v) as u128);
            assert!(ok, "candidate {} not covered", v);
        }
    }
}

#[test]
fn prune_covers_dropped_candidates() {
    let g = VamanaBuilder::try_new(random_vectors(60, 3, 10), 3, row_ids(60), 5, 1, 1, 10, 2).unwrap();
    let all: Vec<usize> = (0..60).collect();
    for i in 0..60 {
        check_prune(&g, i, &all, 1, 1, 5);
        check_prune(&g, i, &all, 1, 1, 60);
        check_prune(&g, i, &all, 6, 5, 60);
        check_prune(&g, i, &all[..10], 3, 2, 60);
    }
}

#[test]
fn prune_picks_nearest_first() {
    let vectors: Vec<i16> = vec![0, 5, 1, 9, 2];
    let g = VamanaBuilder::try_new(vectors, 1, row_ids(5), 2, 1, 1, 5, 0).unwrap();
    let out = robust_prune(&g, 0, &vec![1, 2, 3, 4], 1, 1, 4);
    // nearest to 0 is id 2 (value 1); it stands in for 4 (value 2), 1 (5) and 3 (9)
    assert_eq!(out, vec![2]);
}

#[test]
fn greedy_search_returns_sorted_k() {
    let g = VamanaBuilder::try_new(random_vectors(80, 4, 13), 4, row_ids(80), 6, 6, 5, 12, 8).unwrap();
    let medoid = g.find_medoid();
    let query: Vec<i16> = vec![10, -20, 30, 5];
    let (res, visited) = g.greedy_search(medoid, &query, 5, 12);
    assert_eq!(res.len(), 5);
    let set: HashSet<usize> = res.iter().copied().collect();
    assert_eq!(set.len(), 5);
    for w in res.windows(2) {
        let a = sq_dist(&query, &g.get_vector(w[0]));
        let b = sq_dist(&query, &g.get_vector(w[1]));
        assert!(a < b || (a == b && w[0] < w[1]));
    }
    assert!(res.iter().all(|&i| i < 80));
    let vset: HashSet<usize> = visited.iter().copied().collect();
    assert_eq!(vset.len(), visited.len());
    assert!(vset.contains(&medoid));
}

#[test]
fn distance_is_exact() {
    let g = VamanaBuilder::try_new(vec![0, 0, 3, 4, -1, 1], 2, row_ids(3), 1, 1, 1, 3, 0).unwrap();
    assert_eq!(g.distance(0, 1), 25);
    assert_eq!(g.distance(1, 2), 16 + 9);
    assert_eq!(g.distance(0, 2), 2);
    assert_eq!(g.distance_to(&vec![1, 1], 1), 4 + 9);
    assert_eq!(g.get_vector(1), vec![3, 4]);
    assert_eq!(g.dimension(), 2);
}

#[test]
fn medoid_of_uneven_data() {
    // centroid is (2, 0): vertex 2 sits on it
    let g = VamanaBuilder::try_new(vec![0, 0, 1, 0, 2, 0, 7, 0], 2, row_ids(4), 1, 1, 1, 3, 0).unwrap();
    assert_eq!(g.find_medoid(), 2);
}

#[test]
fn greedy_search_with_small_k_and_large_list() {
    let g = VamanaBuilder::try_new(random_vectors(50, 2, 21), 2, row_ids(50), 4, 1, 1, 8, 3).unwrap();
    let medoid = g.find_medoid();
    for k in 1..=8 {
        let (res, visited) = g.greedy_search(medoid, &g.get_vector(17), k, 8);
        assert!(res.len() == k || res.len() >= visited.len());
        assert!(res.len() <= k);
    }
    let (res, _) = g.greedy_search(medoid, &g.get_vector(17), 1, 8);
    assert_eq!(res, vec![17]);
}

#[test]
fn refine_vertex_sets_prune_and_back_edges() {
    let mut rng = StdRng::seed_from_u64(5);
    let mut g = VamanaBuilder::try_init(random_vectors(20, 2, 9), 2, row_ids(20), 3, &mut rng).unwrap();
    let all: Vec<usize> = (0..20).collect();
    let expected = robust_prune(&g, 4, &all, 1, 1, 3);
    let before: Vec<Vec<usize>> = (0..20).map(|i| g.neighbors(i)).collect();
    g.refine_vertex(4, &all, 1, 1, 3);
    assert_eq!(g.neighbors(4), expected);
    for j in 0..20 {
        if j == 4 {
            continue;
        }
        if expected.contains(&j) {
            assert!(g.neighbors(j).contains(&4) || g.neighbors(j).len() <= 3);
            if before[j].len() < 3 {
                let mut want = before[j].clone();
                if !want.contains(&4) {
                    want.push(4);
                }
                assert_eq!(g.neighbors(j), want);
            } else {
                assert!(g.neighbors(j).len() <= 3);
            }
        } else {
            assert_eq!(g.neighbors(j), before[j]);
        }
    }
}

#[test]
fn greedy_search_returns_nearest_explored() {
    let g = VamanaBuilder::try_new(random_vectors(60, 3, 31), 3, row_ids(60), 5, 6, 5, 10, 4).unwrap();
    let query: Vec<i16> = vec![1, 2, 3];
    let (res, visited) = g.greedy_search(7, &query, 4, 10);
    assert_eq!(visited[0], 7);
    let mut explored: HashSet<usize> = HashSet::new();
    explored.insert(7);
    for &p in &visited {
        explored.extend(g.neighbors(p));
    }
    for &x in &res {
        assert!(visited.contains(&x));
    }
    let last = *res.last().unwrap();
    let dl = sq_dist(&query, &g.get_vector(last));
    for &w in &explored {
        if !res.contains(&w) {
            let dw = sq_dist(&query, &g.get_vector(w));
            assert!(dl < dw || (dl == dw && last < w));
        }
    }
    assert_eq!(res.len(), 4);
}
