use ic_vectune::segment::{ICMemory, WASM_PAGE_SIZE};

#[test]
fn empty_segment_has_no_pages() {
    let mem = ICMemory::new(vec![]);
    assert_eq!(mem.size(), 0);
    assert_eq!(mem.byte_len(), 0);
}

#[test]
fn size_rounds_a_partial_page_up() {
    assert_eq!(ICMemory::new(vec![0u8; 1]).size(), 1);
    assert_eq!(ICMemory::new(vec![0u8; 65536]).size(), 1);
    assert_eq!(ICMemory::new(vec![0u8; 65537]).size(), 2);
}

#[test]
fn grow_returns_prior_page_count_and_appends_zero_pages() {
    let mut mem = ICMemory::new(vec![]);
    assert_eq!(mem.grow(2), 0);
    assert_eq!(mem.size(), 2);
    assert_eq!(mem.byte_len() as u64, 2 * WASM_PAGE_SIZE);
    assert_eq!(mem.grow(1), 2);
    assert_eq!(mem.size(), 3);
    assert!(mem.into_inner().iter().all(|b| *b == 0));
}

#[test]
fn grow_by_zero_changes_nothing() {
    let mut mem = ICMemory::new(vec![7u8; 10]);
    assert_eq!(mem.grow(0), 1);
    assert_eq!(mem.into_inner(), vec![7u8; 10]);
}

#[test]
fn grow_past_the_addressable_limit_fails_and_keeps_the_segment() {
    let mut mem = ICMemory::new(vec![1u8, 2, 3]);
    let too_many = (usize::MAX as u64 / WASM_PAGE_SIZE) + 1;
    assert_eq!(mem.grow(too_many), -1);
    assert_eq!(mem.grow(u64::MAX), -1);
    assert_eq!(mem.into_inner(), vec![1u8, 2, 3]);
}

#[test]
fn write_then_read_gives_the_bytes_back() {
    let mut mem = ICMemory::new(vec![]);
    mem.grow(1);
    mem.write(10, &[1, 2, 3, 4]);
    let mut dst = vec![0u8; 6];
    mem.read(9, &mut dst);
    assert_eq!(dst, vec![0, 1, 2, 3, 4, 0]);
}

#[test]
fn write_leaves_the_rest_untouched() {
    let mut mem = ICMemory::new(vec![9u8; 8]);
    mem.write(2, &[1, 2]);
    assert_eq!(mem.into_inner(), vec![9, 9, 1, 2, 9, 9, 9, 9]);
}
