use ic_vectune::bitmap::extract_false_indices_from_serialized_bitvec;
use ic_vectune::loader::{page_of, ChunkLoader, ChunkType, LoaderError};
use ic_vectune::metadata::{InitialMetadata, Metadata};
use ic_vectune::segment::ICMemory;

fn loader() -> ChunkLoader {
    ChunkLoader::new("index".to_string(), "1".to_string())
}

fn missing(l: &ChunkLoader, t: ChunkType) -> Vec<usize> {
    let mut data = vec![];
    let mut section = 0;
    while let Some(page) = l.missing_chunks(section, t).unwrap() {
        data.extend(page);
        section += 1;
    }
    extract_false_indices_from_serialized_bitvec(&data).unwrap()
}

fn chunk(stream: u8, index: u64) -> Vec<u8> {
    (0..4096u32).map(|k| (k as u8) ^ stream ^ (index as u8).wrapping_mul(31)).collect()
}

#[test]
fn new_loader_is_initial() {
    let l = loader();
    assert_eq!(l.status_code(), 0);
    assert_eq!(l.metadata().get_name(), Some("index".to_string()));
    assert_eq!(l.metadata().get_version(), Some("1".to_string()));
}

#[test]
fn bootstrap_happy_path() {
    let mut l = loader();
    l.start_loading(4, 2, 4, 4096, "key".to_string()).unwrap();
    assert_eq!(l.status_code(), 1);
    assert_eq!(l.metadata().get_db_key(), Ok("key".to_string()));
    // Ten chunks, in a shuffled order.
    let order: [(ChunkType, u8, u64); 10] = [
        (ChunkType::BacklinksMap, 2, 3),
        (ChunkType::Graph, 0, 1),
        (ChunkType::DataMap, 1, 1),
        (ChunkType::Graph, 0, 3),
        (ChunkType::BacklinksMap, 2, 0),
        (ChunkType::Graph, 0, 0),
        (ChunkType::BacklinksMap, 2, 2),
        (ChunkType::DataMap, 1, 0),
        (ChunkType::Graph, 0, 2),
        (ChunkType::BacklinksMap, 2, 1),
    ];
    for (t, s, i) in order {
        l.upload_chunk(chunk(s, i), i, t).unwrap();
    }
    assert!(missing(&l, ChunkType::Graph).is_empty());
    assert_eq!(l.start_running(), Ok(()));
    assert_eq!(l.status_code(), 2);
    // Every chunk stands where its index puts it.
    let graph = l.stream_segment(ChunkType::Graph);
    for i in 0..4u64 {
        let mut got = vec![0u8; 4096];
        graph.read(i * 4096, &mut got);
        assert_eq!(got, chunk(0, i));
    }
    let data = l.stream_segment(ChunkType::DataMap);
    let mut got = vec![0u8; 4096];
    data.read(4096, &mut got);
    assert_eq!(got, chunk(1, 1));
    // The node count of the graph header becomes the next free id.
    let first = chunk(0, 0);
    let count = u32::from_le_bytes([first[0], first[1], first[2], first[3]]);
    match l.metadata().get() {
        Metadata::Running(m) => assert_eq!(m.next_free_id, count),
        _ => panic!("expected running"),
    }
}

#[test]
fn premature_start_is_refused_and_stays_loading() {
    let mut l = loader();
    l.start_loading(4, 2, 4, 4096, String::new()).unwrap();
    let mut sent = 0;
    for (t, s, n) in [(ChunkType::Graph, 0u8, 4u64), (ChunkType::DataMap, 1, 2), (ChunkType::BacklinksMap, 2, 4)] {
        for i in 0..n {
            if sent < 9 {
                l.upload_chunk(chunk(s, i), i, t).unwrap();
                sent += 1;
            }
        }
    }
    assert_eq!(l.start_running(), Err(LoaderError::Incomplete));
    assert_eq!(l.status_code(), 1);
    assert_eq!(missing(&l, ChunkType::BacklinksMap), vec![3]);
    l.upload_chunk(chunk(2, 3), 3, ChunkType::BacklinksMap).unwrap();
    assert_eq!(l.start_running(), Ok(()));
}

#[test]
fn segments_grow_to_whole_pages() {
    let mut l = loader();
    l.start_loading(4, 2, 17, 4096, String::new()).unwrap();
    assert_eq!(l.stream_segment(ChunkType::Graph).size(), 1);
    assert_eq!(l.stream_segment(ChunkType::DataMap).size(), 1);
    assert_eq!(l.stream_segment(ChunkType::BacklinksMap).size(), 2);
    assert_eq!(l.stream_segment(ChunkType::BacklinksMap).byte_len(), 131072);
}

#[test]
fn missing_chunks_lists_what_has_not_come() {
    let mut l = loader();
    l.start_loading(5, 1, 1, 10, String::new()).unwrap();
    assert_eq!(missing(&l, ChunkType::Graph), vec![0, 1, 2, 3, 4]);
    l.upload_chunk(vec![1; 10], 3, ChunkType::Graph).unwrap();
    l.upload_chunk(vec![1; 3], 0, ChunkType::Graph).unwrap();
    assert_eq!(missing(&l, ChunkType::Graph), vec![1, 2, 4]);
    assert_eq!(missing(&l, ChunkType::DataMap), vec![0]);
}

#[test]
fn repeated_upload_overwrites_and_keeps_the_bit() {
    let mut l = loader();
    l.start_loading(2, 1, 1, 4, String::new()).unwrap();
    l.upload_chunk(vec![1, 1, 1, 1], 1, ChunkType::Graph).unwrap();
    l.upload_chunk(vec![2, 2], 1, ChunkType::Graph).unwrap();
    let mut got = vec![0u8; 8];
    l.stream_segment(ChunkType::Graph).read(0, &mut got);
    assert_eq!(got, vec![0, 0, 0, 0, 2, 2, 1, 1]);
    assert_eq!(missing(&l, ChunkType::Graph), vec![0]);
}

#[test]
fn upload_errors_change_nothing() {
    let mut l = loader();
    assert_eq!(l.upload_chunk(vec![1], 0, ChunkType::Graph), Err(LoaderError::NotLoading));
    l.start_loading(2, 1, 1, 4, String::new()).unwrap();
    assert_eq!(l.upload_chunk(vec![1; 5], 0, ChunkType::Graph), Err(LoaderError::ChunkTooLong));
    assert_eq!(l.upload_chunk(vec![1; 4], 2, ChunkType::Graph), Err(LoaderError::IndexOutOfRange));
    assert_eq!(l.upload_chunk(vec![1; 4], 16384, ChunkType::Graph), Err(LoaderError::OutOfSegment));
    assert_eq!(l.upload_chunk(vec![1; 4], u64::MAX, ChunkType::Graph), Err(LoaderError::OutOfSegment));
    assert_eq!(missing(&l, ChunkType::Graph), vec![0, 1]);
    let mut got = vec![9u8; 16];
    l.stream_segment(ChunkType::Graph).read(0, &mut got);
    assert_eq!(got, vec![0u8; 16]);
}

#[test]
fn operations_in_the_wrong_phase_are_refused() {
    let mut l = loader();
    assert_eq!(l.start_running(), Err(LoaderError::NotLoading));
    assert!(matches!(l.missing_chunks(0, ChunkType::Graph), Err(LoaderError::NotLoading)));
    l.start_loading(1, 1, 1, 16, String::new()).unwrap();
    assert_eq!(l.start_loading(1, 1, 1, 16, String::new()), Err(LoaderError::NotInitial));
    for t in [ChunkType::Graph, ChunkType::DataMap, ChunkType::BacklinksMap] {
        l.upload_chunk(vec![0; 16], 0, t).unwrap();
    }
    l.start_running().unwrap();
    assert_eq!(l.start_running(), Err(LoaderError::NotLoading));
    assert_eq!(l.upload_chunk(vec![], 0, ChunkType::Graph), Err(LoaderError::NotLoading));
    assert_eq!(l.start_loading(1, 1, 1, 16, String::new()), Err(LoaderError::NotInitial));
}

#[test]
fn reset_goes_back_to_initial_and_keeps_name_and_version() {
    let mut l = loader();
    l.start_loading(1, 1, 1, 16, "k".to_string()).unwrap();
    assert_eq!(l.reset(), Ok(()));
    assert_eq!(l.status_code(), 0);
    assert_eq!(l.metadata().get_name(), Some("index".to_string()));
    assert!(l.metadata().get_db_key().is_err());
    l.start_loading(1, 1, 1, 16, String::new()).unwrap();
    for t in [ChunkType::Graph, ChunkType::DataMap, ChunkType::BacklinksMap] {
        l.upload_chunk(vec![0; 16], 0, t).unwrap();
    }
    l.start_running().unwrap();
    assert_eq!(l.reset(), Ok(()));
    assert_eq!(l.status_code(), 0);
    assert_eq!(l.metadata().get_version(), Some("1".to_string()));
}

#[test]
fn reset_in_the_initial_phase_is_refused() {
    let mut l = loader();
    assert_eq!(l.reset(), Err(LoaderError::NothingToReset));
    assert_eq!(l.status_code(), 0);
    assert_eq!(l.metadata().get_name(), Some("index".to_string()));
    l.start_loading(1, 1, 1, 16, String::new()).unwrap();
    l.reset().unwrap();
    assert_eq!(l.reset(), Err(LoaderError::NothingToReset));
}

#[test]
fn reset_leaves_the_segments_as_they_are() {
    let mut l = loader();
    l.start_loading(2, 1, 1, 4, String::new()).unwrap();
    l.upload_chunk(vec![7, 7, 7, 7], 1, ChunkType::Graph).unwrap();
    l.reset().unwrap();
    let mut got = vec![0u8; 8];
    l.stream_segment(ChunkType::Graph).read(0, &mut got);
    assert_eq!(got, vec![0, 0, 0, 0, 7, 7, 7, 7]);
    assert_eq!(l.stream_segment(ChunkType::Graph).byte_len(), 65536);
}

#[test]
fn loading_again_after_reset_starts_with_empty_bitmaps() {
    let mut l = loader();
    l.start_loading(2, 1, 1, 8, String::new()).unwrap();
    l.upload_chunk(vec![7; 8], 0, ChunkType::Graph).unwrap();
    l.reset().unwrap();
    l.start_loading(3, 1, 1, 8, String::new()).unwrap();
    assert_eq!(missing(&l, ChunkType::Graph), vec![0, 1, 2]);
}

#[test]
fn start_with_a_stream_without_chunks() {
    let mut l = loader();
    l.start_loading(1, 0, 0, 32, String::new()).unwrap();
    assert_eq!(missing(&l, ChunkType::DataMap), Vec::<usize>::new());
    l.upload_chunk(vec![5; 32], 0, ChunkType::Graph).unwrap();
    assert_eq!(l.start_running(), Ok(()));
}

#[test]
fn start_without_room_for_a_graph_header_is_refused() {
    let mut l = loader();
    l.start_loading(0, 0, 0, 32, String::new()).unwrap();
    assert_eq!(l.start_running(), Err(LoaderError::MissingHeader));
    assert_eq!(l.status_code(), 1);
}

#[test]
fn loading_more_than_can_be_addressed_is_refused() {
    let mut l = loader();
    assert_eq!(l.start_loading(1, 1, u64::MAX, u64::MAX, String::new()), Err(LoaderError::TooLarge));
    assert_eq!(l.status_code(), 0);
    assert_eq!(l.stream_segment(ChunkType::Graph).byte_len(), 0);
}

#[test]
fn page_of_is_none_exactly_past_the_end() {
    let w = 2 * 1024 * 1024;
    let bytes = vec![3u8; w + 5];
    assert_eq!(page_of(&bytes, 0).unwrap().len(), w);
    assert_eq!(page_of(&bytes, 1).unwrap(), vec![3u8; 5]);
    assert_eq!(page_of(&bytes, 2), None);
    assert_eq!(page_of(&bytes, u64::MAX), None);
    let exact = vec![1u8; w];
    assert_eq!(page_of(&exact, 0).unwrap().len(), w);
    assert_eq!(page_of(&exact, 1), None);
    assert_eq!(page_of(&vec![], 0), None);
}

#[test]
fn bitmap_of_many_chunks_is_paged() {
    let mut l = loader();
    // 17 Mi chunks of one byte: the serialized bitmap is a little over 2 MiB.
    let n = 17 * 1024 * 1024u64;
    l.start_loading(n, 0, 0, 1, String::new()).unwrap();
    let first_page = l.missing_chunks(0, ChunkType::Graph).unwrap().unwrap();
    let second_page = l.missing_chunks(1, ChunkType::Graph).unwrap().unwrap();
    assert_eq!(first_page.len(), 2 * 1024 * 1024);
    assert!(second_page.len() < 2 * 1024 * 1024);
    assert_eq!(l.missing_chunks(2, ChunkType::Graph).unwrap(), None);
    assert_eq!(missing(&l, ChunkType::Graph).len() as u64, n);
}

#[test]
fn name_version_and_key_can_be_changed_while_loading() {
    let mut l = loader();
    l.change_name("other".to_string());
    l.change_version("2".to_string());
    assert_eq!(l.change_db_key("k".to_string()), Err(()));
    l.start_loading(2, 1, 1, 8, "first".to_string()).unwrap();
    l.upload_chunk(vec![1; 8], 1, ChunkType::Graph).unwrap();
    assert_eq!(l.change_db_key("second".to_string()), Ok(()));
    l.change_name("third".to_string());
    assert_eq!(l.metadata().get_name(), Some("third".to_string()));
    assert_eq!(l.metadata().get_version(), Some("2".to_string()));
    assert_eq!(l.metadata().get_db_key(), Ok("second".to_string()));
    assert_eq!(missing(&l, ChunkType::Graph), vec![0]);
}

#[test]
fn loader_is_put_together_again_from_its_parts() {
    let mut l = loader();
    l.start_loading(1, 1, 1, 32, String::new()).unwrap();
    for t in [ChunkType::Graph, ChunkType::DataMap, ChunkType::BacklinksMap] {
        l.upload_chunk(vec![9; 32], 0, t).unwrap();
    }
    l.start_running().unwrap();
    let (metadata, graph, data_map, backlinks) = l.into_parts();
    let mut again = ChunkLoader::from_parts(metadata, graph, data_map, backlinks).unwrap();
    assert_eq!(again.status_code(), 2);
    let mut got = vec![0u8; 32];
    again.stream_segment(ChunkType::DataMap).read(0, &mut got);
    assert_eq!(got, vec![9u8; 32]);
    assert_eq!(again.reset(), Ok(()));
    assert_eq!(again.status_code(), 0);
    assert_eq!(again.stream_segment(ChunkType::Graph).byte_len(), 65536);
}

#[test]
fn parts_that_do_not_fit_give_no_loader() {
    let initial = || Metadata::Initial(InitialMetadata { name: "n".to_string(), version: "v".to_string() });
    let page = || ICMemory::new(vec![0u8; 65536]);
    assert!(ChunkLoader::from_parts(initial(), page(), page(), page()).is_some());
    assert!(ChunkLoader::from_parts(initial(), ICMemory::new(vec![]), page(), page()).is_some());
    assert!(ChunkLoader::from_parts(initial(), ICMemory::new(vec![0u8; 10]), page(), page()).is_none());
    assert!(ChunkLoader::from_parts(initial(), page(), page(), ICMemory::new(vec![0u8; 65537])).is_none());
    assert!(ChunkLoader::from_parts(Metadata::Unset, page(), page(), page()).is_none());
    let mut l = loader();
    l.start_loading(1, 1, 1, 32, String::new()).unwrap();
    let (loading, g, d, b) = l.into_parts();
    assert!(ChunkLoader::from_parts(loading, g, d, b).is_none());
}
