use ic_vectune::composite::{compose, store_backlinks, Vectune, COMPOSITE_HEADER_BYTES};
use ic_vectune::node_store::NodeStore;
use ic_vectune::ordered_map::ICRBTree;
use ic_vectune::segment::ICMemory;

#[test]
fn header_is_forty_bytes_of_little_endian_fields() {
    let bytes = compose(&vec![1, 2, 3], &vec![4, 5], &vec![6], 7, 8, 9, 10);
    assert_eq!(COMPOSITE_HEADER_BYTES, 40);
    assert_eq!(bytes.len(), 40 + 6);
    assert_eq!(&bytes[0..8], &3u64.to_le_bytes());
    assert_eq!(&bytes[8..16], &2u64.to_le_bytes());
    assert_eq!(&bytes[16..24], &1u64.to_le_bytes());
    assert_eq!(&bytes[24..28], &7u32.to_le_bytes());
    assert_eq!(&bytes[28..32], &8u32.to_le_bytes());
    assert_eq!(&bytes[32..36], &9u32.to_le_bytes());
    assert_eq!(&bytes[36..40], &10u32.to_le_bytes());
    assert_eq!(&bytes[40..], &[1, 2, 3, 4, 5, 6]);
}

#[test]
fn composite_of_nothing_is_a_bare_header() {
    let bytes = compose(&vec![], &vec![], &vec![], 0, 0, 0, 0);
    assert_eq!(bytes, vec![0u8; 40]);
}

#[test]
fn backlinks_are_stored_sorted_as_little_endian_words() {
    let stored = store_backlinks(&vec![vec![3, 1, 3], vec![]]).unwrap();
    assert_eq!(stored, vec![vec![1, 0, 0, 0, 3, 0, 0, 0], vec![]]);
}

#[test]
fn default_build_settings() {
    let v = Vectune::new();
    assert_eq!((v.dim, v.degree, v.seed), (384, 90, 123456789));
}

#[test]
fn serialized_index_splits_into_its_three_images() {
    let mut store = NodeStore::new(2, 1, 2, ICMemory::new(vec![]));
    store.write_node(0, &vec![10], &vec![1]).unwrap();
    store.write_node(1, &vec![20], &vec![0]).unwrap();
    let data_map = ICRBTree::build_from_vec_u8(vec![b"a".to_vec(), b"b".to_vec()]);
    let bytes = Vectune::serialize(data_map, store, vec![vec![1], vec![0]], 1).unwrap();
    let dm = u64::from_le_bytes(bytes[0..8].try_into().unwrap()) as usize;
    let g = u64::from_le_bytes(bytes[8..16].try_into().unwrap()) as usize;
    let bl = u64::from_le_bytes(bytes[16..24].try_into().unwrap()) as usize;
    assert_eq!(bytes.len(), 40 + dm + g + bl);
    assert_eq!(u32::from_le_bytes(bytes[24..28].try_into().unwrap()), 1);
    assert_eq!(u32::from_le_bytes(bytes[28..32].try_into().unwrap()), 2);
    assert_eq!(u32::from_le_bytes(bytes[32..36].try_into().unwrap()), 1);
    assert_eq!(u32::from_le_bytes(bytes[36..40].try_into().unwrap()), 2);
    let data = ICRBTree::load_memory(bytes[40..40 + dm].to_vec());
    assert_eq!(data.get_items(), vec![(0, b"a".to_vec()), (1, b"b".to_vec())]);
    let graph = NodeStore::load(ICMemory::new(bytes[40 + dm..40 + dm + g].to_vec())).unwrap();
    assert_eq!(graph.read_node(1).unwrap(), (vec![20], vec![0]));
    let links = ICRBTree::load_memory(bytes[40 + dm + g..].to_vec());
    assert_eq!(links.get(0), Some(vec![1, 0, 0, 0]));
    assert_eq!(links.get(1), Some(vec![0, 0, 0, 0]));
}
