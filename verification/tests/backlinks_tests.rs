use ic_vectune::backlinks::{invert_edges, Backlinks};
use ic_vectune::bytes::{decode_ids, encode_ids};

#[test]
fn ids_are_four_little_endian_bytes_each() {
    assert_eq!(encode_ids(&vec![1, 0x0102_0304]), vec![1, 0, 0, 0, 4, 3, 2, 1]);
    assert_eq!(decode_ids(&vec![1, 0, 0, 0, 4, 3, 2, 1]), Some(vec![1, 0x0102_0304]));
}

#[test]
fn bytes_of_other_lengths_are_no_id_list() {
    assert_eq!(decode_ids(&vec![1, 2, 3]), None);
    assert_eq!(decode_ids(&vec![]), Some(vec![]));
    assert!(Backlinks::from_bytes(&vec![0; 5]).is_none());
}

#[test]
fn set_is_kept_ascending_without_duplicates() {
    let mut set = Backlinks::new();
    for id in [5u32, 1, 9, 5, 3, 1] {
        set.insert(id);
    }
    assert_eq!(set.0, vec![1, 3, 5, 9]);
    set.remove(5);
    set.remove(7);
    assert_eq!(set.0, vec![1, 3, 9]);
    assert!(set.contains(3));
    assert!(!set.contains(5));
}

#[test]
fn from_ids_sorts_and_dedups() {
    assert_eq!(Backlinks::from_ids(&vec![4, 2, 4, 0, 2]).0, vec![0, 2, 4]);
}

#[test]
fn stored_form_round_trips() {
    let set = Backlinks::from_ids(&vec![10, 3, 7]);
    let bytes = set.to_bytes();
    assert_eq!(bytes.len(), 12);
    assert_eq!(Backlinks::from_bytes(&bytes).unwrap().0, vec![3, 7, 10]);
}

#[test]
fn stored_ids_in_any_order_are_read_as_a_set() {
    let bytes = encode_ids(&vec![9, 1, 9, 4]);
    assert_eq!(Backlinks::from_bytes(&bytes).unwrap().0, vec![1, 4, 9]);
}

#[test]
fn inverse_of_the_edges_lists_the_sources_in_ascending_order() {
    let edges = vec![vec![1, 2], vec![2], vec![0, 1], vec![]];
    assert_eq!(
        invert_edges(&edges),
        Some(vec![vec![2], vec![0, 2], vec![0, 1], vec![]])
    );
    // A node named twice by one source stands once among the backlinks.
    assert_eq!(invert_edges(&vec![vec![0, 0]]), Some(vec![vec![0]]));
    assert_eq!(invert_edges(&vec![]), Some(vec![]));
}

#[test]
fn edge_to_no_node_has_no_inverse() {
    assert_eq!(invert_edges(&vec![vec![1], vec![2]]), None);
}
