use circuit_consensus::entries::StateChange;
use circuit_consensus::merkle::MerkleState;
use circuit_consensus::migrate::{
    copy_entries_chunked, copy_state, migrate, move_entries, write_and_prune_with_cleanup,
    MigrationError, ServiceMigration, StateMigrateAction,
};

fn source_with(n: usize) -> (MerkleState, Vec<u8>) {
    let mut store = MerkleState::new();
    let r0 = store.get_state_root();
    let changes: Vec<StateChange> = (0..n)
        .map(|i| StateChange::Put {
            key: format!("key{:06}", i).into_bytes(),
            value: format!("value{}", i).into_bytes(),
        })
        .collect();
    let root = store.commit(&r0, &changes).unwrap();
    (store, root)
}

#[test]
fn migration_round_trip() {
    let (mut source, root) = source_with(25);
    let expected = source.filter_iter(&root, None).unwrap();
    let mut dest = MerkleState::new();
    migrate(&mut source, &root, &mut dest, false, false).unwrap();
    assert_eq!(dest.get_state_root(), root);
    assert_eq!(dest.filter_iter(&root, None).unwrap(), expected);
    // move semantics: the source is deleted
    assert!(!source.has_tree());
}

#[test]
fn copy_state_into_empty_store_is_exact() {
    let (source, root) = source_with(10);
    let mut dest = MerkleState::new();
    copy_state(&source, &root, &mut dest).unwrap();
    assert_eq!(dest.get_state_root(), root);
    assert_eq!(dest.filter_iter(&root, None).unwrap(), source.filter_iter(&root, None).unwrap());
}

#[test]
fn corrupted_value_gives_hash_mismatch() {
    let (mut source, root) = source_with(20);
    let mut entries = source.filter_iter(&root, None).unwrap();
    entries[7].1 = b"corrupted".to_vec();
    let mut dest = MerkleState::new();
    let r = move_entries(&entries, &root, &mut source, &mut dest);
    assert_eq!(r, Err(MigrationError::HashMismatch));
    assert!(!dest.has_tree());
    assert_eq!(source.get_state_root(), root);
    assert_eq!(source.filter_iter(&root, None).unwrap().len(), 20);
    assert_eq!(source.filter_iter(&root, None).unwrap()[7].1, b"value7".to_vec());
}

#[test]
fn chunking_does_not_change_the_root() {
    let (source, root) = source_with(2500);
    let entries = source.filter_iter(&root, None).unwrap();
    let mut chunked = MerkleState::new();
    copy_entries_chunked(&entries, &root, &mut chunked, 1000).unwrap();
    let mut single = MerkleState::new();
    copy_entries_chunked(&entries, &root, &mut single, 2500).unwrap();
    assert_eq!(chunked.get_state_root(), single.get_state_root());
    assert_eq!(chunked.get_state_root(), root);
}

#[test]
fn migration_of_a_multiple_of_the_chunk_size() {
    let (mut source, root) = source_with(2000);
    let mut dest = MerkleState::new();
    migrate(&mut source, &root, &mut dest, false, false).unwrap();
    assert_eq!(dest.get_state_root(), root);
    assert_eq!(dest.filter_iter(&root, None).unwrap().len(), 2000);
}

#[test]
fn populated_destination_needs_force() {
    let (mut source, root) = source_with(5);
    let (mut dest, dest_root) = source_with(1);
    assert_eq!(migrate(&mut source, &root, &mut dest, false, false), Err(MigrationError::Conflict));
    assert_eq!(dest.get_state_root(), dest_root);
    assert_eq!(source.get_state_root(), root);
    // with force the copy lands on top of the existing state; its one entry is also in the
    // source, so the result is the source's snapshot
    let r = migrate(&mut source, &root, &mut dest, true, false);
    assert_eq!(r, Ok(()));
    assert_eq!(dest.get_state_root(), root);
}

#[test]
fn forced_migration_onto_other_state_rolls_back() {
    let (mut source, root) = source_with(5);
    let mut dest = MerkleState::new();
    let d0 = dest.get_state_root();
    let d1 = dest
        .commit(&d0, &vec![StateChange::Put { key: b"zzz".to_vec(), value: b"1".to_vec() }])
        .unwrap();
    assert_ne!(d1, d0);
    let r = migrate(&mut source, &root, &mut dest, true, false);
    assert_eq!(r, Err(MigrationError::HashMismatch));
    assert!(!dest.has_tree());
    assert_eq!(source.get_state_root(), root);
}

#[test]
fn dry_run_changes_nothing() {
    let (mut source, root) = source_with(5);
    let mut dest = MerkleState::new();
    let d0 = dest.get_state_root();
    assert_eq!(migrate(&mut source, &root, &mut dest, false, true), Ok(()));
    assert_eq!(dest.get_state_root(), d0);
    assert!(!dest.has_tree());
    assert_eq!(source.get_state_root(), root);
    assert!(source.has_tree());
}

#[test]
fn unknown_expected_root_is_a_storage_error() {
    let (mut source, _) = source_with(3);
    let mut dest = MerkleState::new();
    let r = migrate(&mut source, &vec![1u8; 64], &mut dest, false, false);
    assert!(matches!(r, Err(MigrationError::Storage(_))));
    assert!(source.has_tree());
}

#[test]
fn write_and_prune_keeps_only_the_new_snapshot() {
    let mut store = MerkleState::new();
    let r0 = store.get_state_root();
    let r1 = write_and_prune_with_cleanup(
        &mut store,
        &r0,
        &vec![StateChange::Put { key: b"k".to_vec(), value: b"v".to_vec() }],
    )
    .unwrap();
    assert_eq!(store.get_state_root(), r1);
    assert!(store.filter_iter(&r0, None).is_err());
    assert_eq!(store.filter_iter(&r1, None).unwrap(), vec![(b"k".to_vec(), b"v".to_vec())]);
}

fn service(name: &str, n: usize, populated_dest: bool) -> ServiceMigration {
    let (source, root) = source_with(n);
    let dest = if populated_dest { source_with(1).0 } else { MerkleState::new() };
    ServiceMigration {
        circuit_id: "circuit".to_string(),
        service_id: name.to_string(),
        commit_hash: Some(root),
        source,
        dest,
    }
}

#[test]
fn migrate_action_moves_every_service() {
    let action = StateMigrateAction { force: false, dry_run: false };
    let (done, r) = action.run(vec![service("a", 3, false), service("b", 4, false)]);
    assert_eq!(r, Ok(()));
    assert_eq!(done.len(), 2);
    for svc in &done {
        assert_eq!(Some(svc.dest.get_state_root()), svc.commit_hash);
        assert!(!svc.source.has_tree());
    }
    assert_eq!(done[1].service_id, "b");
}

#[test]
fn migrate_action_stops_at_first_failure() {
    let action = StateMigrateAction { force: false, dry_run: false };
    let (done, r) = action.run(vec![
        service("a", 3, false),
        service("b", 4, true),
        service("c", 5, false),
    ]);
    assert_eq!(r, Err(MigrationError::Conflict));
    assert_eq!(done.len(), 3);
    assert!(!done[0].source.has_tree());
    assert!(done[1].source.has_tree());
    // the service after the failure was not touched
    assert!(done[2].source.has_tree());
    assert!(!done[2].dest.has_tree());
    assert_eq!(done[2].service_id, "c");
}

#[test]
fn migrate_action_dry_run_moves_nothing() {
    let action = StateMigrateAction { force: false, dry_run: true };
    let (done, r) = action.run(vec![service("a", 3, false)]);
    assert_eq!(r, Ok(()));
    assert!(done[0].source.has_tree());
    assert!(!done[0].dest.has_tree());
}

#[test]
fn migrate_action_needs_a_commit_hash() {
    let action = StateMigrateAction { force: false, dry_run: false };
    let mut missing = service("b", 2, false);
    missing.commit_hash = None;
    let (done, r) = action.run(vec![service("a", 3, false), missing, service("c", 1, false)]);
    assert_eq!(r, Err(MigrationError::MissingCommitHash));
    assert!(!done[0].source.has_tree());
    assert!(done[1].source.has_tree());
    assert!(!done[1].dest.has_tree());
    assert!(done[2].source.has_tree());
}

#[test]
fn migrate_action_with_no_services_succeeds() {
    let action = StateMigrateAction { force: false, dry_run: false };
    let (done, r) = action.run(vec![]);
    assert_eq!(r, Ok(()));
    assert!(done.is_empty());
}

#[test]
fn copy_keeps_only_the_final_root() {
    let (source, root) = source_with(2500);
    let mut dest = MerkleState::new();
    let start = dest.get_state_root();
    copy_state(&source, &root, &mut dest).unwrap();
    assert_eq!(dest.get_state_root(), root);
    // the destination's starting root was pruned along the way
    assert!(dest.filter_iter(&start, None).is_err());
}
