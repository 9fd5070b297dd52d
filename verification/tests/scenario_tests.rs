use ic_vectune::batch::{BatchPool, StepDecision, Stepper};
use ic_vectune::engine::{Engine, StepItem};
use ic_vectune::graph::Graph;
use ic_vectune::metadata::{Metadata, RunningMetadata};
use ic_vectune::node_store::NodeStore;
use ic_vectune::ordered_map::ICRBTree;
use ic_vectune::query::begin_search;
use ic_vectune::segment::ICMemory;

fn bits(v: &[f32]) -> Vec<u32> {
    v.iter().map(|x| x.to_bits()).collect()
}

fn floats(v: &[u32]) -> Vec<f32> {
    v.iter().map(|x| f32::from_bits(*x)).collect()
}

fn unit(angle_deg: f32) -> Vec<f32> {
    let a = angle_deg.to_radians();
    vec![a.cos(), a.sin()]
}

fn distance(a: &[f32], b: &[f32]) -> f32 {
    1.0 - a.iter().zip(b.iter()).map(|(x, y)| x * y).sum::<f32>()
}

fn point(g: &Graph, id: u32) -> Vec<f32> {
    floats(&g.get(id).unwrap().0)
}

fn by_distance(list: &mut Vec<(f32, u32)>) {
    list.sort_by(|a, b| a.0.partial_cmp(&b.0).unwrap().then(a.1.cmp(&b.1)));
}

/// Greedy search from the entry node: the `k` closest candidates and the
/// nodes that were expanded.
fn greedy_search(g: &Graph, q: &[f32], k: usize, l: usize) -> (Vec<(f32, u32)>, Vec<(f32, u32)>) {
    assert!(k <= l);
    let cemetery = g.cemetery();
    let start = g.start_id();
    let mut candidates = vec![(distance(q, &point(g, start)), start)];
    let mut expanded: Vec<u32> = vec![];
    let mut visited = vec![];
    loop {
        let next = candidates.iter().find(|c| !expanded.contains(&c.1)).copied();
        let Some((d, id)) = next else { break };
        expanded.push(id);
        visited.push((d, id));
        for out in g.get(id).unwrap().1 {
            if !candidates.iter().any(|c| c.1 == out) {
                candidates.push((distance(q, &point(g, out)), out));
            }
        }
        by_distance(&mut candidates);
        candidates.truncate(l);
    }
    candidates.retain(|c| !cemetery.contains(&c.1));
    candidates.truncate(k);
    by_distance(&mut visited);
    (candidates, visited)
}

/// Robust edge selection among `candidates` for the node with vector `p`.
fn prune(g: &Graph, p: &[f32], self_id: u32, candidates: Vec<u32>) -> Vec<u32> {
    let r = g.size_r();
    let alpha = f32::from_bits(g.size_a());
    let mut list: Vec<(f32, u32)> = candidates
        .into_iter()
        .filter(|c| *c != self_id)
        .map(|c| (distance(p, &point(g, c)), c))
        .collect();
    by_distance(&mut list);
    list.dedup_by_key(|c| c.1);
    let mut out = vec![];
    while !list.is_empty() && out.len() < r {
        let (_, best) = list.remove(0);
        out.push(best);
        let best_point = point(g, best);
        list.retain(|(d, w)| alpha * distance(&best_point, &point(g, *w)) > *d);
    }
    out
}

/// Links an allocated node into the graph.
fn insert(g: &mut Graph, id: u32) {
    let p = point(g, id);
    let (_, visited) = greedy_search(g, &p, 1, g.size_l());
    let new_edges = prune(g, &p, id, visited.into_iter().map(|v| v.1).collect());
    g.overwrite_edges(id, new_edges.clone()).unwrap();
    for e in new_edges {
        let (v, mut out) = g.get(e).unwrap();
        if !out.contains(&id) {
            out.push(id);
        }
        if out.len() > g.size_r() {
            out = prune(g, &floats(&v), e, out);
        }
        g.overwrite_edges(e, out).unwrap();
    }
}

/// Consolidates the deletions: rewires every node with an edge into the
/// cemetery, then frees the nodes of the cemetery.
fn delete(g: &mut Graph) {
    let mut graves = g.cemetery();
    graves.sort();
    graves.dedup();
    let mut sources = vec![];
    for t in &graves {
        sources.extend(g.backlink(*t).unwrap());
    }
    sources.sort();
    sources.dedup();
    sources.retain(|p| !graves.contains(p));
    for p in sources {
        let (v, out) = g.get(p).unwrap();
        let mut candidates: Vec<u32> = vec![];
        for e in out {
            if graves.contains(&e) {
                candidates.extend(g.get(e).unwrap().1);
            } else {
                candidates.push(e);
            }
        }
        candidates.retain(|c| !graves.contains(c) && *c != p);
        let new_edges = prune(g, &floats(&v), p, candidates);
        g.overwrite_edges(p, new_edges).unwrap();
    }
    for t in &graves {
        g.overwrite_edges(*t, vec![]).unwrap();
    }
    for t in &graves {
        g.free(*t).unwrap();
    }
    g.clear_cemetery().unwrap();
}


fn engine(degree: u32) -> (Engine, Metadata) {
    let store = NodeStore::new(0, 2, degree, ICMemory::new(vec![]));
    let e = Engine {
        graph: Graph::new(store, ICRBTree::new(), 0).unwrap(),
        data_map: ICRBTree::new(),
        pool: BatchPool::new(),
    };
    let m = Metadata::Running(RunningMetadata {
        name: "n".to_string(),
        version: "v".to_string(),
        next_free_id: 0,
    });
    (e, m)
}

fn add_node(e: &mut Engine, m: &mut Metadata, v: &[f32], data: &str) -> u32 {
    let id = e.graph.allocate(&bits(v)).unwrap();
    e.data_map.insert(id, data.as_bytes().to_vec());
    m.update(Metadata::Running(RunningMetadata {
        name: "n".to_string(),
        version: "v".to_string(),
        next_free_id: e.graph.next_free_id(),
    }));
    id
}

/// Drains the queue as one call of the stepper does: `None` when the queue
/// is empty and the deletions are consolidated.
fn next_batch_step(e: &mut Engine, max_iter: u64) -> Option<u64> {
    let mut stepper = Stepper::new();
    let mut counter = 0u64;
    loop {
        match e.next_item().unwrap() {
            StepItem::Drained => break,
            StepItem::Applied { .. } => {}
            StepItem::Insert { id, remaining } => {
                let start = counter;
                insert(&mut e.graph, id);
                counter += 1_000;
                if let StepDecision::Yield(left) = stepper.after_insert(start, counter, remaining, max_iter) {
                    return Some(left);
                }
            }
        }
    }
    delete(&mut e.graph);
    None
}

fn search(e: &mut Engine, q: &[f32], k: usize, l: usize) -> Vec<(f32, u32, Vec<u8>)> {
    let running = Metadata::Running(RunningMetadata {
        name: "n".to_string(),
        version: "v".to_string(),
        next_free_id: e.graph.next_free_id(),
    });
    let width = begin_search(e, &running, &bits(q), k as u64, l as u64).unwrap();
    let (k_ann, _visited) = greedy_search(&e.graph, q, k, width);
    assert_eq!(e.graph.size_l(), 125);
    k_ann
        .into_iter()
        .map(|(dist, id)| (1.0 - dist, id, e.data_map.get(id).unwrap()))
        .collect()
}

fn check_invariants(e: &Engine) {
    let n = e.graph.next_free_id();
    let mut edges = vec![];
    let mut links = vec![];
    for i in 0..n {
        let (_, out) = e.graph.get(i).unwrap();
        assert!(out.len() <= e.graph.size_r(), "degree of {}", i);
        edges.push(out);
        let back = e.graph.backlink(i).unwrap();
        assert!(back.windows(2).all(|w| w[0] < w[1]));
        links.push(back);
    }
    for i in 0..n as usize {
        for j in 0..n as usize {
            assert_eq!(
                edges[i].contains(&(j as u32)),
                links[j].contains(&(i as u32)),
                "edge {} -> {}",
                i,
                j
            );
        }
    }
}

#[test]
fn single_insert_round_trip() {
    let (mut e, mut m) = engine(4);
    for a in [0.0f32, 120.0, 240.0] {
        add_node(&mut e, &mut m, &unit(a), "old");
    }
    e.graph.overwrite_edges(0, vec![1, 2]).unwrap();
    e.graph.overwrite_edges(1, vec![0, 2]).unwrap();
    e.graph.overwrite_edges(2, vec![0, 1]).unwrap();
    let v = unit(50.0);
    let ids = e.batch_pool(&mut m, vec![], vec![], vec![(bits(&v), b"x".to_vec())]).unwrap();
    assert_eq!(ids, vec![3]);
    assert_eq!(next_batch_step(&mut e, 5), None);
    let found = search(&mut e, &v, 1, 10);
    assert_eq!(found.len(), 1);
    assert_eq!(found[0].1, 3);
    assert!(found[0].0 >= 0.99);
    assert_eq!(found[0].2, b"x".to_vec());
    check_invariants(&e);
}

#[test]
fn delete_consolidation_on_a_line() {
    let (mut e, mut m) = engine(4);
    for i in 0..10 {
        add_node(&mut e, &mut m, &unit(i as f32 * 9.0), &format!("{}", i));
    }
    for i in 0..9u32 {
        e.graph.overwrite_edges(i, vec![i + 1]).unwrap();
    }
    // Before the deletion a search for the far end walks through node 5.
    let far = unit(81.0);
    let before = search(&mut e, &far, 1, 10);
    assert_eq!(before[0].1, 9);
    assert_eq!(e.batch_pool(&mut m, vec![5], vec![], vec![]).unwrap(), Vec::<u32>::new());
    assert_eq!(next_batch_step(&mut e, 5), None);
    assert_eq!(e.graph.backlink(5), Ok(vec![]));
    for i in 0..10u32 {
        let (_, out) = e.graph.get(i).unwrap();
        assert!(!out.contains(&5), "node {} still points to 5", i);
    }
    assert!(e.graph.cemetery().is_empty());
    // The line is closed around the gap and the far end is still found.
    assert_eq!(e.graph.get(4).unwrap().1, vec![6]);
    let after = search(&mut e, &far, 1, 10);
    assert_eq!(after[0].1, 9);
    let all = search(&mut e, &unit(0.0), 9, 10);
    let mut ids: Vec<u32> = all.iter().map(|r| r.1).collect();
    ids.sort();
    assert_eq!(ids, vec![0, 1, 2, 3, 4, 6, 7, 8, 9]);
    check_invariants(&e);
}

#[test]
fn degree_bound_and_symmetry_under_churn() {
    let (mut e, mut m) = engine(4);
    for a in [0.0f32, 120.0, 240.0] {
        add_node(&mut e, &mut m, &unit(a), "seed");
    }
    e.graph.overwrite_edges(0, vec![1, 2]).unwrap();
    e.graph.overwrite_edges(1, vec![0, 2]).unwrap();
    e.graph.overwrite_edges(2, vec![0, 1]).unwrap();
    let mut seed: u32 = 7;
    let mut rnd = move || {
        seed = seed.wrapping_mul(1664525).wrapping_add(1013904223);
        seed >> 8
    };
    let mut deleted = std::collections::BTreeSet::new();
    let mut ops = 0;
    while ops < 1000 {
        let mut deletes = vec![];
        let mut modifies = vec![];
        let mut inserts = vec![];
        let n = e.graph.next_free_id();
        let mut named = std::collections::BTreeSet::new();
        for _ in 0..50 {
            match rnd() % 10 {
                0 => {
                    let id = 3 + rnd() % n.max(4);
                    if id < n && !deleted.contains(&id) && named.insert(id) {
                        deletes.push(id);
                        deleted.insert(id);
                    }
                }
                1 | 2 => {
                    let id = rnd() % n;
                    if named.insert(id) {
                        modifies.push((id, b"changed".to_vec()));
                    }
                }
                _ => inserts.push((bits(&unit((rnd() % 3600) as f32 / 10.0)), b"new".to_vec())),
            }
            ops += 1;
        }
        e.batch_pool(&mut m, deletes, modifies, inserts).unwrap();
        while next_batch_step(&mut e, 5).is_some() {}
    }
    check_invariants(&e);
    for id in &deleted {
        assert_eq!(e.graph.backlink(*id), Ok(vec![]));
        assert_eq!(e.graph.get(*id).unwrap().1, Vec::<u32>::new());
    }
}
