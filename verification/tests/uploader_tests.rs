use ic_vectune::loader::{ChunkLoader, ChunkType};
use ic_vectune::ordered_map::ICRBTree;
use ic_vectune::uploader::{
    get_missing_chunks, join_pages, num_chunks, plan_uploads, setup_action, upload_round, ChunkReader,
    SetupAction, UploadLoop,
};

#[test]
fn num_chunks_rounds_up() {
    assert_eq!(num_chunks(0, 4), Some(0));
    assert_eq!(num_chunks(1, 4), Some(1));
    assert_eq!(num_chunks(4, 4), Some(1));
    assert_eq!(num_chunks(5, 4), Some(2));
    assert_eq!(num_chunks(usize::MAX, 1), Some(usize::MAX));
    assert_eq!(num_chunks(usize::MAX, usize::MAX), Some(1));
    assert_eq!(num_chunks(10, 0), None);
}

#[test]
fn reader_cuts_the_image_into_chunks() {
    let r = ChunkReader::new((0u8..10).collect(), 4);
    assert_eq!(r.file_size(), 10);
    assert_eq!(r.read(0), vec![0, 1, 2, 3]);
    assert_eq!(r.read(1), vec![4, 5, 6, 7]);
    assert_eq!(r.read(2), vec![8, 9]);
    assert!(r.starts_within(2));
    assert!(!r.starts_within(3));
    let exact = ChunkReader::new(vec![1; 8], 4);
    assert!(exact.starts_within(2));
    assert_eq!(exact.read(2), Vec::<u8>::new());
}

#[test]
fn upload_round_is_done_when_no_bit_is_unset() {
    assert!(matches!(upload_round(vec![true, true], 8, 4), Some(UploadLoop::Done)));
    assert!(matches!(upload_round(vec![], 0, 4), Some(UploadLoop::Done)));
    match upload_round(vec![true, false], 8, 4) {
        Some(UploadLoop::Continue(bits)) => assert_eq!(bits, vec![true, false]),
        _ => panic!("expected another round"),
    }
}

#[test]
fn upload_round_refuses_a_bitmap_too_short_for_the_image() {
    assert!(upload_round(vec![false, false], 9, 4).is_none());
    assert!(upload_round(vec![false, false], 8, 4).is_some());
}

#[test]
fn plan_holds_the_missing_chunks_in_order() {
    let r = ChunkReader::new((0u8..10).collect(), 4);
    let plan = plan_uploads(&r, &vec![false, true, false]);
    assert_eq!(plan, vec![(0, vec![0, 1, 2, 3]), (2, vec![8, 9])]);
    // A bit beyond the image has no chunk to send.
    let plan = plan_uploads(&r, &vec![true, true, true, false, false]);
    assert!(plan.is_empty());
}

#[test]
fn setup_starts_loading_only_from_the_initial_phase() {
    assert_eq!(setup_action(0), Some(SetupAction::Initialize));
    assert_eq!(setup_action(1), Some(SetupAction::SkipInitialize));
    assert_eq!(setup_action(2), None);
    assert_eq!(setup_action(255), None);
}

#[test]
fn pages_join_in_order() {
    assert_eq!(join_pages(&vec![vec![1, 2], vec![], vec![3]]), vec![1, 2, 3]);
    assert_eq!(join_pages(&vec![]), Vec::<u8>::new());
}

#[test]
fn bitmap_is_read_back_from_its_pages() {
    let mut l = ChunkLoader::new("n".to_string(), "v".to_string());
    l.start_loading(3, 1, 1, 8, String::new()).unwrap();
    l.upload_chunk(vec![1; 8], 1, ChunkType::Graph).unwrap();
    let mut pages = vec![];
    let mut section = 0;
    while let Some(page) = l.missing_chunks(section, ChunkType::Graph).unwrap() {
        pages.push(page);
        section += 1;
    }
    assert_eq!(get_missing_chunks(&pages), Some(vec![false, true, false]));
    assert_eq!(get_missing_chunks(&vec![vec![1, 2, 3]]), None);
}

#[test]
fn whole_upload_puts_the_image_at_the_start_of_the_segment() {
    let items: Vec<(u32, Vec<u8>)> = (0..500u32).map(|k| (k, vec![k as u8; 300])).collect();
    let image = ICRBTree::build_from_vec(items.clone()).into_memory();
    let chunk_size = 10_000usize;
    let reader = ChunkReader::new(image.clone(), chunk_size);
    let n = num_chunks(reader.file_size(), chunk_size).unwrap() as u64;
    let mut l = ChunkLoader::new("n".to_string(), "v".to_string());
    l.start_loading(1, n, 1, chunk_size as u64, String::new()).unwrap();
    let mut rounds = 0;
    loop {
        let mut pages = vec![];
        let mut section = 0;
        while let Some(page) = l.missing_chunks(section, ChunkType::DataMap).unwrap() {
            pages.push(page);
            section += 1;
        }
        let bits = get_missing_chunks(&pages).unwrap();
        match upload_round(bits, reader.file_size(), chunk_size).unwrap() {
            UploadLoop::Done => break,
            UploadLoop::Continue(bits) => {
                for (index, chunk) in plan_uploads(&reader, &bits) {
                    l.upload_chunk(chunk, index as u64, ChunkType::DataMap).unwrap();
                }
            }
        }
        rounds += 1;
        assert!(rounds < 3);
    }
    let (_, _, data, _) = l.into_parts();
    let bytes = data.into_inner();
    assert_eq!(&bytes[..image.len()], &image[..]);
    // The uploaded segment opens as the map that was built.
    let map = ICRBTree::load_memory(bytes);
    assert_eq!(map.get_items(), items);
}
