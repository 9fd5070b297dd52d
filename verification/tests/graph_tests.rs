use ic_vectune::graph::{Graph, GraphError};
use ic_vectune::node_store::{NodeStore, NodeStoreError};
use ic_vectune::ordered_map::ICRBTree;
use ic_vectune::segment::ICMemory;

fn empty_graph(dim: u32, degree: u32) -> Graph {
    let store = NodeStore::new(0, dim, degree, ICMemory::new(vec![]));
    Graph::new(store, ICRBTree::new(), 0).unwrap()
}

fn graph_with(n: u32, degree: u32) -> Graph {
    let mut g = empty_graph(2, degree);
    for i in 0..n {
        assert_eq!(g.allocate(&vec![i, i]), Ok(i));
    }
    g
}

fn check_symmetry(g: &Graph) {
    let n = g.next_free_id();
    for i in 0..n {
        let (_, edges) = g.get(i).unwrap();
        assert!(edges.len() <= g.size_r());
        for j in 0..n {
            let links = g.backlink(j).unwrap();
            assert_eq!(edges.contains(&j), links.contains(&i), "i={} j={}", i, j);
        }
    }
}

#[test]
fn defaults_come_from_the_store_header() {
    let mut store = NodeStore::new(0, 4, 90, ICMemory::new(vec![]));
    store.set_start_id(17);
    let g = Graph::new(store, ICRBTree::new(), 0).unwrap();
    assert_eq!(g.size_l(), 125);
    assert_eq!(g.size_r(), 90);
    assert_eq!(f32::from_bits(g.size_a()), 2.0);
    assert_eq!(g.start_id(), 17);
}

#[test]
fn allocate_hands_out_consecutive_ids_with_empty_edges_and_backlinks() {
    let mut g = empty_graph(2, 3);
    assert_eq!(g.allocate(&vec![1, 2]), Ok(0));
    assert_eq!(g.allocate(&vec![3, 4]), Ok(1));
    assert_eq!(g.next_free_id(), 2);
    assert_eq!(g.get(1), Ok((vec![3, 4], vec![])));
    assert_eq!(g.backlink(1), Ok(vec![]));
}

#[test]
fn allocate_with_a_vector_of_the_wrong_dimension_changes_nothing() {
    let mut g = empty_graph(2, 3);
    assert_eq!(g.allocate(&vec![1]), Err(GraphError::Store(NodeStoreError::WrongDimension)));
    assert_eq!(g.next_free_id(), 0);
    assert_eq!(g.backlink(0), Err(GraphError::MissingBacklinks));
}

#[test]
fn get_of_an_unallocated_id_is_refused() {
    let g = graph_with(2, 3);
    assert_eq!(g.get(2), Err(GraphError::Unallocated));
    assert!(g.get(1).is_ok());
}

#[test]
fn overwrite_edges_updates_both_directions() {
    let mut g = graph_with(4, 3);
    g.overwrite_edges(0, vec![1, 2]).unwrap();
    g.overwrite_edges(3, vec![2]).unwrap();
    assert_eq!(g.backlink(1), Ok(vec![0]));
    assert_eq!(g.backlink(2), Ok(vec![0, 3]));
    g.overwrite_edges(0, vec![2, 3]).unwrap();
    assert_eq!(g.get(0).unwrap().1, vec![2, 3]);
    assert_eq!(g.backlink(1), Ok(vec![]));
    assert_eq!(g.backlink(2), Ok(vec![0, 3]));
    assert_eq!(g.backlink(3), Ok(vec![0]));
    check_symmetry(&g);
}

#[test]
fn overwrite_edges_keeps_the_vector() {
    let mut g = graph_with(2, 3);
    g.overwrite_edges(1, vec![0]).unwrap();
    assert_eq!(g.get(1), Ok((vec![1, 1], vec![0])));
}

#[test]
fn overwrite_edges_with_too_many_edges_changes_nothing() {
    let mut g = graph_with(5, 2);
    g.overwrite_edges(0, vec![1]).unwrap();
    assert_eq!(
        g.overwrite_edges(0, vec![2, 3, 4]),
        Err(GraphError::Store(NodeStoreError::TooManyEdges))
    );
    assert_eq!(g.get(0).unwrap().1, vec![1]);
    assert_eq!(g.backlink(2), Ok(vec![]));
    check_symmetry(&g);
}

#[test]
fn overwrite_edges_to_a_node_without_backlink_entry_changes_nothing() {
    let mut g = graph_with(3, 3);
    assert_eq!(g.overwrite_edges(0, vec![1, 7]), Err(GraphError::MissingBacklinks));
    assert_eq!(g.get(0).unwrap().1, Vec::<u32>::new());
    assert_eq!(g.backlink(1), Ok(vec![]));
}

#[test]
fn overwrite_edges_of_an_unallocated_node_is_refused() {
    let mut g = graph_with(3, 3);
    assert_eq!(g.overwrite_edges(3, vec![0]), Err(GraphError::Unallocated));
}

#[test]
fn free_takes_the_node_out_of_its_targets_backlinks() {
    let mut g = graph_with(3, 3);
    g.overwrite_edges(0, vec![1, 2]).unwrap();
    g.overwrite_edges(1, vec![0]).unwrap();
    g.free(0).unwrap();
    assert_eq!(g.backlink(1), Ok(vec![]));
    assert_eq!(g.backlink(2), Ok(vec![]));
    assert_eq!(g.backlink(0), Ok(vec![]));
    // The record itself stays.
    assert_eq!(g.get(0).unwrap().1, vec![1, 2]);
    // The id is not handed out again.
    assert_eq!(g.allocate(&vec![0, 0]), Ok(3));
}

#[test]
fn cemetery_collects_suspects_until_cleared() {
    let mut g = graph_with(3, 3);
    assert!(g.cemetery().is_empty());
    g.suspect(2).unwrap();
    g.suspect(0).unwrap();
    assert_eq!(g.cemetery(), vec![2, 0]);
    g.clear_cemetery().unwrap();
    assert!(g.cemetery().is_empty());
}

#[test]
fn setters_change_only_their_field() {
    let mut g = graph_with(2, 3);
    g.set_size_l(10);
    g.set_start_node_index(1);
    assert_eq!(g.size_l(), 10);
    assert_eq!(g.start_id(), 1);
    assert_eq!(g.size_r(), 3);
    assert_eq!(g.next_free_id(), 2);
}

#[test]
fn symmetry_and_degree_bound_hold_under_churn() {
    let n = 12u32;
    let mut g = graph_with(n, 4);
    let mut seed: u32 = 12345;
    for _ in 0..1000 {
        seed = seed.wrapping_mul(1664525).wrapping_add(1013904223);
        let id = (seed >> 8) % n;
        let mut edges = vec![];
        let count = (seed >> 20) % 6;
        for k in 0..count {
            seed = seed.wrapping_mul(1664525).wrapping_add(1013904223);
            let _ = k;
            edges.push((seed >> 8) % n);
        }
        let res = g.overwrite_edges(id, edges.clone());
        if edges.len() > 4 {
            assert_eq!(res, Err(GraphError::Store(NodeStoreError::TooManyEdges)));
        } else {
            assert_eq!(res, Ok(()));
        }
    }
    check_symmetry(&g);
}

#[test]
fn backlink_entry_that_is_no_id_list_is_corrupt() {
    let mut store = NodeStore::new(1, 1, 2, ICMemory::new(vec![]));
    store.write_node(0, &vec![0], &vec![]).unwrap();
    store.write_node(1, &vec![0], &vec![]).unwrap();
    let links = ICRBTree::build_from_vec(vec![(0, vec![1, 2, 3]), (1, vec![])]);
    let mut g = Graph::new(store, links, 2).unwrap();
    assert_eq!(g.backlink(0), Err(GraphError::CorruptBacklinks));
    assert_eq!(g.overwrite_edges(1, vec![0]), Err(GraphError::CorruptBacklinks));
    assert_eq!(g.get(1).unwrap().1, Vec::<u32>::new());
}

#[test]
fn allocate_fails_when_every_id_is_taken() {
    let store = NodeStore::new(0, 1, 2, ICMemory::new(vec![]));
    let mut g = Graph::new(store, ICRBTree::new(), u32::MAX).unwrap();
    assert_eq!(g.allocate(&vec![1]), Err(GraphError::IdsExhausted));
    assert_eq!(g.next_free_id(), u32::MAX);
}

#[test]
fn free_of_an_unallocated_node_is_refused() {
    let mut g = graph_with(2, 3);
    assert_eq!(g.free(2), Err(GraphError::Unallocated));
    assert_eq!(g.free(1), Ok(()));
}

#[test]
fn reserve_changes_nothing_that_can_be_read() {
    let mut g = graph_with(3, 3);
    g.overwrite_edges(0, vec![1, 2]).unwrap();
    assert_eq!(g.reserve(5000), Ok(()));
    assert_eq!(g.get(0), Ok((vec![0, 0], vec![1, 2])));
    assert_eq!(g.next_free_id(), 3);
    assert_eq!(g.get(4), Err(GraphError::Unallocated));
    check_symmetry(&g);
}

#[test]
fn graph_gives_its_store_and_backlink_map_back() {
    let mut g = graph_with(3, 3);
    g.overwrite_edges(0, vec![2]).unwrap();
    let (store, links) = g.into_parts();
    assert_eq!(store.read_node(0).unwrap(), (vec![0, 0], vec![2]));
    assert_eq!(links.get(2), Some(vec![0, 0, 0, 0]));
    assert_eq!(links.get_items().len(), 3);
}

#[test]
fn free_ids_are_listed_in_the_order_of_freeing() {
    let mut g = graph_with(4, 3);
    assert!(g.free_ids().is_empty());
    g.free(2).unwrap();
    g.free(0).unwrap();
    assert_eq!(g.free_ids(), vec![2, 0]);
    // A node that was just allocated is not among them.
    assert_eq!(g.allocate(&vec![0, 0]), Ok(4));
    assert!(!g.free_ids().contains(&4));
}

#[test]
fn graph_is_put_together_again_from_its_parts_and_lists() {
    let mut g = graph_with(4, 3);
    g.overwrite_edges(0, vec![1, 2]).unwrap();
    g.overwrite_edges(3, vec![0]).unwrap();
    g.overwrite_edges(3, vec![]).unwrap();
    g.free(3).unwrap();
    g.suspect(1).unwrap();
    let (freed, graves, next) = (g.free_ids(), g.cemetery(), g.next_free_id());
    let (store, links) = g.into_parts();
    let mut again = Graph::new(store, links.reload(), next).unwrap();
    for id in freed {
        again.free(id).unwrap();
    }
    for id in graves {
        again.suspect(id).unwrap();
    }
    assert_eq!(again.free_ids(), vec![3]);
    assert_eq!(again.cemetery(), vec![1]);
    assert_eq!(again.backlink(1), Ok(vec![0]));
    assert_eq!(again.backlink(0), Ok(vec![]));
    check_symmetry(&again);
}
