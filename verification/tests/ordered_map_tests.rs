use ic_vectune::ordered_map::ICRBTree;

#[test]
fn new_map_is_empty() {
    let map = ICRBTree::new();
    assert!(map.get_items().is_empty());
    assert_eq!(map.get(0), None);
}

#[test]
fn insert_returns_the_previous_value() {
    let mut map = ICRBTree::new();
    assert_eq!(map.insert(3, vec![1]), None);
    assert_eq!(map.insert(3, vec![2, 2]), Some(vec![1]));
    assert_eq!(map.get(3), Some(vec![2, 2]));
    assert_eq!(map.get_items().len(), 1);
}

#[test]
fn items_come_out_in_key_order() {
    let map = ICRBTree::build_from_vec(vec![(5, vec![50]), (1, vec![10]), (3, vec![30])]);
    assert_eq!(map.get_items(), vec![(1, vec![10]), (3, vec![30]), (5, vec![50])]);
}

#[test]
fn later_entry_with_the_same_key_stays() {
    let map = ICRBTree::build_from_vec(vec![(1, vec![1]), (2, vec![2]), (1, vec![9])]);
    assert_eq!(map.get_items(), vec![(1, vec![9]), (2, vec![2])]);
}

#[test]
fn build_from_values_keys_by_position() {
    let map = ICRBTree::build_from_vec_u8(vec![vec![7], vec![], vec![8, 9]]);
    assert_eq!(map.get_items(), vec![(0, vec![7]), (1, vec![]), (2, vec![8, 9])]);
}

#[test]
fn memory_image_gives_the_map_back() {
    let items: Vec<(u32, Vec<u8>)> = (0..300u32).rev().map(|k| (k * 7, vec![k as u8; (k % 40) as usize])).collect();
    let map = ICRBTree::build_from_vec(items.clone());
    let image = map.into_memory();
    assert_eq!(image.len() % 65536, 0);
    let again = ICRBTree::load_memory(image);
    let mut sorted = items;
    sorted.sort_by_key(|(k, _)| *k);
    assert_eq!(again.get_items(), sorted);
}

#[test]
fn reload_keeps_the_entries() {
    let map = ICRBTree::build_from_vec(vec![(2, vec![2, 2]), (1, vec![1])]);
    let map = map.reload();
    assert_eq!(map.get_items(), vec![(1, vec![1]), (2, vec![2, 2])]);
}

#[test]
fn image_of_an_empty_map_opens_as_an_empty_map() {
    let again = ICRBTree::load_memory(ICRBTree::new().into_memory());
    assert!(again.get_items().is_empty());
}
