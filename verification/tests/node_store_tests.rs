use ic_vectune::node_store::{NodeStore, NodeStoreError};
use ic_vectune::segment::ICMemory;

fn bits(xs: &[f32]) -> Vec<u32> {
    xs.iter().map(|x| x.to_bits()).collect()
}

fn store(dim: u32, degree: u32) -> NodeStore {
    NodeStore::new(0, dim, degree, ICMemory::new(vec![]))
}

#[test]
fn header_is_four_little_endian_words_at_offset_zero() {
    let mut s = NodeStore::new(7, 3, 5, ICMemory::new(vec![]));
    s.set_start_id(2);
    let bytes = s.into_storage().into_inner();
    assert_eq!(&bytes[0..16], &[7, 0, 0, 0, 3, 0, 0, 0, 5, 0, 0, 0, 2, 0, 0, 0]);
    assert_eq!(bytes.len(), 65536);
}

#[test]
fn load_reads_the_layout_back() {
    let mut s = NodeStore::new(9, 4, 6, ICMemory::new(vec![]));
    s.set_start_id(3);
    let mem = s.into_storage();
    let s = NodeStore::load(mem).unwrap();
    assert_eq!(s.num_vectors(), 9);
    assert_eq!(s.vector_dim(), 4);
    assert_eq!(s.max_edge_degrees(), 6);
    assert_eq!(s.start_id(), 3);
}

#[test]
fn load_of_a_segment_shorter_than_a_header_fails() {
    assert!(matches!(NodeStore::load(ICMemory::new(vec![0u8; 15])), Err(NodeStoreError::OutOfRange)));
    assert!(NodeStore::load(ICMemory::new(vec![0u8; 16])).is_ok());
}

#[test]
fn read_after_write_is_bit_identical() {
    let mut s = store(3, 4);
    let v = bits(&[1.5, -0.0, f32::NAN]);
    let e = vec![7u32, 0, 4_000_000_000];
    s.write_node(5, &v, &e).unwrap();
    let (v2, e2) = s.read_node(5).unwrap();
    assert_eq!(v2, v);
    assert_eq!(e2, e);
}

#[test]
fn record_layout_is_count_vector_edges_padding() {
    let mut s = store(2, 3);
    s.write_node(1, &vec![0x0403_0201, 0x0807_0605], &vec![0x0c0b_0a09]).unwrap();
    let bytes = s.into_storage().into_inner();
    // stride = 2 + 4 * 2 + 4 * 3 = 22; node 1 starts at 16 + 22.
    let rec = &bytes[38..60];
    assert_eq!(
        rec,
        &[1, 0, 1, 2, 3, 4, 5, 6, 7, 8, 9, 10, 11, 12, 0, 0, 0, 0, 0, 0, 0, 0]
    );
}

#[test]
fn writing_one_node_leaves_the_others() {
    let mut s = store(2, 2);
    s.write_node(0, &vec![1, 2], &vec![1]).unwrap();
    s.write_node(1, &vec![3, 4], &vec![0, 1]).unwrap();
    s.write_node(0, &vec![5, 6], &vec![]).unwrap();
    assert_eq!(s.read_node(1).unwrap(), (vec![3, 4], vec![0, 1]));
    assert_eq!(s.read_node(0).unwrap(), (vec![5, 6], vec![]));
    assert_eq!(s.num_vectors(), 0);
}

#[test]
fn write_grows_the_segment_lazily() {
    let mut s = store(16, 16);
    assert_eq!(s.byte_len(), 65536);
    // stride = 2 + 64 + 64 = 130; node 1000 ends at 16 + 1001 * 130 = 130146.
    s.write_node(1000, &vec![0u32; 16], &vec![]).unwrap();
    assert_eq!(s.byte_len(), 2 * 65536);
    assert_eq!(s.read_node(1000).unwrap(), (vec![0u32; 16], vec![]));
}

#[test]
fn too_many_edges_is_an_error_and_changes_nothing() {
    let mut s = store(1, 2);
    s.write_node(0, &vec![9], &vec![1, 2]).unwrap();
    assert_eq!(s.write_node(0, &vec![9], &vec![1, 2, 3]), Err(NodeStoreError::TooManyEdges));
    assert_eq!(s.read_node(0).unwrap(), (vec![9], vec![1, 2]));
}

#[test]
fn wrong_dimension_is_an_error() {
    let mut s = store(2, 2);
    assert_eq!(s.write_node(0, &vec![1], &vec![]), Err(NodeStoreError::WrongDimension));
    assert_eq!(s.write_node(0, &vec![1, 2, 3], &vec![0, 0, 0]), Err(NodeStoreError::WrongDimension));
}

#[test]
fn reading_beyond_the_segment_is_out_of_range() {
    let s = store(1000, 1000);
    // stride = 8002; the first page holds 8 records behind the header.
    assert!(s.read_node(7).is_ok());
    assert_eq!(s.read_node(8), Err(NodeStoreError::OutOfRange));
    assert_eq!(s.read_node(u32::MAX), Err(NodeStoreError::OutOfRange));
}

#[test]
fn record_that_claims_too_many_edges_is_corrupt() {
    let s = store(1, 2);
    let mut bytes = s.into_storage().into_inner();
    bytes[16] = 3;
    let s = NodeStore::load(ICMemory::new(bytes)).unwrap();
    assert_eq!(s.read_node(0), Err(NodeStoreError::Corrupt));
    assert!(s.read_node(1).is_ok());
}

#[test]
fn fresh_records_read_as_zero_vector_without_edges() {
    let s = store(2, 2);
    assert_eq!(s.read_node(3).unwrap(), (vec![0, 0], vec![]));
}

#[test]
fn record_beyond_what_can_be_addressed_cannot_be_written() {
    // stride = 2 + 4 * (2^32 - 1): the last node would lie past 2^64 bytes.
    let mut s = store(0, u32::MAX);
    let len = s.byte_len();
    assert_eq!(s.write_node(u32::MAX, &vec![], &vec![]), Err(NodeStoreError::GrowFailed));
    assert_eq!(s.reserve(u32::MAX), Err(NodeStoreError::GrowFailed));
    assert_eq!(s.byte_len(), len);
}

#[test]
fn reserve_makes_room_for_every_node_up_to_the_last() {
    let mut s = store(16, 16);
    // stride = 130; node 1008 ends at 16 + 1009 * 130 = 131186 > two pages.
    assert_eq!(s.reserve(1008), Ok(()));
    assert_eq!(s.byte_len(), 3 * 65536);
    assert!(s.read_node(1008).is_ok());
    assert!(s.read_node(0).is_ok());
    assert_eq!(s.reserve(3), Ok(()));
    assert_eq!(s.byte_len(), 3 * 65536);
}
