use ic_vectune::metadata::{InitialMetadata, LoadingMetadata, Metadata, RunningMetadata};
use ic_vectune::status::{get_metadata, get_prev_status, IcStatus};

fn initial() -> Metadata {
    Metadata::Initial(InitialMetadata { name: "n".to_string(), version: "1".to_string() })
}

fn loading() -> Metadata {
    Metadata::Loading(LoadingMetadata {
        uploaded_graph_chunks: vec![true],
        uploaded_datamap_chunks: vec![false, true],
        uploaded_backlinks_chunks: vec![],
        chunk_byte_size: 64,
        name: "n".to_string(),
        version: "1".to_string(),
        db_key: "k".to_string(),
    })
}

fn running() -> Metadata {
    Metadata::Running(RunningMetadata { name: "n".to_string(), version: "1".to_string(), next_free_id: 9 })
}

fn status() -> IcStatus {
    IcStatus {
        controllers: vec!["a".to_string(), "b".to_string()],
        compute_allocation: 1,
        memory_allocation: 2,
        freezing_threshold: 3,
        module_hash: Some(vec![9, 9]),
        memory_size: 4,
        cycles: 5,
        idle_cycles_burned_per_day: 6,
    }
}

#[test]
fn status_code_numbers_the_phases() {
    assert_eq!(Metadata::Unset.status_code(), None);
    assert_eq!(initial().status_code(), Some(0));
    assert_eq!(loading().status_code(), Some(1));
    assert_eq!(running().status_code(), Some(2));
}

#[test]
fn update_replaces_and_get_copies() {
    let mut cell = Metadata::Unset;
    cell.update(loading());
    match cell.get() {
        Metadata::Loading(m) => {
            assert_eq!(m.uploaded_graph_chunks, vec![true]);
            assert_eq!(m.uploaded_datamap_chunks, vec![false, true]);
            assert_eq!(m.uploaded_backlinks_chunks, Vec::<bool>::new());
            assert_eq!(m.chunk_byte_size, 64);
            assert_eq!(m.db_key, "k");
        }
        _ => panic!("expected loading"),
    }
    cell.update(running());
    assert_eq!(cell.status_code(), Some(2));
}

#[test]
fn name_and_version_are_there_in_every_phase_but_unset() {
    for m in [initial(), loading(), running()] {
        assert_eq!(m.get_name(), Some("n".to_string()));
        assert_eq!(m.get_version(), Some("1".to_string()));
    }
    assert_eq!(Metadata::Unset.get_name(), None);
    assert_eq!(Metadata::Unset.get_version(), None);
}

#[test]
fn db_key_is_there_only_while_loading() {
    assert_eq!(loading().get_db_key(), Ok("k".to_string()));
    assert_eq!(initial().get_db_key(), Err(()));
    assert_eq!(running().get_db_key(), Err(()));
    assert_eq!(Metadata::Unset.get_db_key(), Err(()));
}

#[test]
fn change_name_and_version_keep_the_rest() {
    let mut m = loading();
    assert_eq!(m.change_name("other".to_string()), Ok(()));
    assert_eq!(m.change_version("2".to_string()), Ok(()));
    assert_eq!(m.get_name(), Some("other".to_string()));
    assert_eq!(m.get_version(), Some("2".to_string()));
    assert_eq!(m.get_db_key(), Ok("k".to_string()));
    let mut r = running();
    r.change_name("x".to_string()).unwrap();
    match r.get() {
        Metadata::Running(r) => assert_eq!((r.name.as_str(), r.next_free_id), ("x", 9)),
        _ => panic!("expected running"),
    }
    let mut u = Metadata::Unset;
    assert_eq!(u.change_name("x".to_string()), Err(()));
    assert_eq!(u.change_version("x".to_string()), Err(()));
    assert_eq!(u.status_code(), None);
}

#[test]
fn change_db_key_works_only_while_loading() {
    let mut m = loading();
    assert_eq!(m.change_db_key("new".to_string()), Ok(()));
    assert_eq!(m.get_db_key(), Ok("new".to_string()));
    let mut i = initial();
    assert_eq!(i.change_db_key("new".to_string()), Err(()));
    assert_eq!(i.status_code(), Some(0));
}

#[test]
fn ic_status_update_and_get_copy_every_field() {
    let mut cell = IcStatus {
        controllers: vec![],
        compute_allocation: 0,
        memory_allocation: 0,
        freezing_threshold: 0,
        module_hash: None,
        memory_size: 0,
        cycles: 0,
        idle_cycles_burned_per_day: 0,
    };
    cell.update(&status());
    let got = cell.get();
    assert_eq!(got.controllers, vec!["a".to_string(), "b".to_string()]);
    assert_eq!(
        (got.compute_allocation, got.memory_allocation, got.freezing_threshold),
        (1, 2, 3)
    );
    assert_eq!(got.module_hash, Some(vec![9, 9]));
    assert_eq!((got.memory_size, got.cycles, got.idle_cycles_burned_per_day), (4, 5, 6));
}

#[test]
fn summaries_show_the_upload_key_only_while_loading() {
    let s = get_prev_status(&status(), &loading()).unwrap();
    assert_eq!(s.db_key, "k");
    assert_eq!(s.name, "n");
    assert_eq!(s.version, "1");
    assert_eq!(s.cycles, 5);
    assert_eq!((s.hnsw_chunk_len, s.source_chunk_len), (0, 0));
    let s = get_prev_status(&status(), &running()).unwrap();
    assert_eq!(s.db_key, "");
    assert!(get_prev_status(&status(), &Metadata::Unset).is_none());
    let m = get_metadata(&running(), vec!["o".to_string()], 77, 3).unwrap();
    assert_eq!(m.owners, vec!["o".to_string()]);
    assert_eq!((m.cycle_amount, m.stable_memory_size), (77, 3));
    assert_eq!(m.db_key, "");
    assert!(!m.is_deserialized && !m.is_complete_hnsw_chunks && !m.is_complete_source_chunks);
    assert!(get_metadata(&Metadata::Unset, vec![], 0, 0).is_none());
}
