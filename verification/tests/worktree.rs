use collab_core::protocol::DiffError;
use collab_core::worktree::Diff;
use collab_core::worktree::DiffOp;
use collab_core::worktree::EntryKind;
use collab_core::worktree::FileEntry;
use collab_core::worktree::Worktree;

fn entry(path: &str, fingerprint: u64) -> FileEntry {
    FileEntry {
        path: path.as_bytes().to_vec(),
        kind: EntryKind::File,
        fingerprint,
        mtime: 1000,
    }
}

#[test]
fn diffs_in_version_order_advance_the_version_by_one_each() {
    let mut w = Worktree::new(1);
    assert_eq!(w.version(), 0);
    let d1 = Diff { base_version: 0, ops: vec![DiffOp::Insert { entry: entry("a.rs", 10) }] };
    let d2 = Diff {
        base_version: 1,
        ops: vec![
            DiffOp::Insert { entry: entry("b.rs", 20) },
            DiffOp::Update { entry: entry("a.rs", 11) },
        ],
    };
    assert!(w.apply_remote(d1).is_ok());
    assert_eq!(w.version(), 1);
    assert!(w.apply_remote(d2).is_ok());
    assert_eq!(w.version(), 2);
    assert_eq!(w.entry_count(), 2);
    let a = w.lookup(&b"a.rs".to_vec()).unwrap();
    assert_eq!(a.fingerprint, 11);
    let b = w.lookup(&b"b.rs".to_vec()).unwrap();
    assert_eq!(b.fingerprint, 20);
}

#[test]
fn stale_base_version_is_rejected_unchanged() {
    // A synchronizer at version 4 receiving a diff with base version 3 must
    // reject it with VersionMismatch and stay at version 4.
    let mut w = Worktree::new(1);
    let mut version = 0;
    while version < 4 {
        let d = Diff {
            base_version: version,
            ops: vec![DiffOp::Insert { entry: entry(&format!("f{}.rs", version), version) }],
        };
        assert!(w.apply_remote(d).is_ok());
        version += 1;
    }
    assert_eq!(w.version(), 4);
    let stale = Diff { base_version: 3, ops: vec![DiffOp::Insert { entry: entry("late.rs", 9) }] };
    assert_eq!(w.apply_remote(stale), Err(DiffError::VersionMismatch));
    assert_eq!(w.version(), 4);
    assert_eq!(w.entry_count(), 4);
    assert!(w.lookup(&b"late.rs".to_vec()).is_none());
}

#[test]
fn future_base_version_is_rejected_unchanged() {
    let mut w = Worktree::new(1);
    let d = Diff { base_version: 2, ops: vec![] };
    assert_eq!(w.apply_remote(d), Err(DiffError::VersionMismatch));
    assert_eq!(w.version(), 0);
}

#[test]
fn malformed_diffs_are_rejected_whole() {
    let mut w = Worktree::new(1);
    let d1 = Diff { base_version: 0, ops: vec![DiffOp::Insert { entry: entry("a.rs", 1) }] };
    w.apply_remote(d1).unwrap();

    // Removing a path that does not exist: rejected, nothing applied.
    let d2 = Diff {
        base_version: 1,
        ops: vec![
            DiffOp::Insert { entry: entry("b.rs", 2) },
            DiffOp::Remove { path: b"ghost.rs".to_vec() },
        ],
    };
    assert_eq!(w.apply_remote(d2), Err(DiffError::Malformed));
    assert_eq!(w.version(), 1);
    assert_eq!(w.entry_count(), 1);
    assert!(w.lookup(&b"b.rs".to_vec()).is_none());

    // Inserting a path that already exists: rejected.
    let d3 = Diff { base_version: 1, ops: vec![DiffOp::Insert { entry: entry("a.rs", 3) }] };
    assert_eq!(w.apply_remote(d3), Err(DiffError::Malformed));

    // Two operations on the same path: rejected.
    let d4 = Diff {
        base_version: 1,
        ops: vec![
            DiffOp::Update { entry: entry("a.rs", 4) },
            DiffOp::Remove { path: b"a.rs".to_vec() },
        ],
    };
    assert_eq!(w.apply_remote(d4), Err(DiffError::Malformed));
    assert_eq!(w.version(), 1);
    assert_eq!(w.lookup(&b"a.rs".to_vec()).unwrap().fingerprint, 1);
}

#[test]
fn remove_drops_the_entry() {
    let mut w = Worktree::new(1);
    let d1 = Diff {
        base_version: 0,
        ops: vec![
            DiffOp::Insert { entry: entry("a.rs", 1) },
            DiffOp::Insert { entry: entry("b.rs", 2) },
        ],
    };
    w.apply_remote(d1).unwrap();
    let d2 = Diff { base_version: 1, ops: vec![DiffOp::Remove { path: b"a.rs".to_vec() }] };
    w.apply_remote(d2).unwrap();
    assert_eq!(w.entry_count(), 1);
    assert!(w.lookup(&b"a.rs".to_vec()).is_none());
    assert!(w.lookup(&b"b.rs".to_vec()).is_some());
}

#[test]
fn local_changes_mark_paths_dirty_and_survive_as_rebroadcast() {
    let mut w = Worktree::new(1);
    let d1 = Diff {
        base_version: 0,
        ops: vec![
            DiffOp::Insert { entry: entry("a.rs", 1) },
            DiffOp::Insert { entry: entry("b.rs", 2) },
        ],
    };
    w.apply_remote(d1).unwrap();
    w.record_local_change(entry("a.rs", 100));
    assert!(w.is_dirty(&b"a.rs".to_vec()));
    assert!(!w.is_dirty(&b"b.rs".to_vec()));
    assert_eq!(w.lookup(&b"a.rs".to_vec()).unwrap().fingerprint, 100);

    // A remote diff touching the dirty path is authoritative for tree
    // structure, and the dirty path comes back for re-broadcast.
    let d2 = Diff {
        base_version: 1,
        ops: vec![
            DiffOp::Update { entry: entry("a.rs", 50) },
            DiffOp::Update { entry: entry("b.rs", 60) },
        ],
    };
    let rebroadcast = w.apply_remote(d2).unwrap();
    assert_eq!(rebroadcast, vec![b"a.rs".to_vec()]);
    assert!(!w.is_dirty(&b"a.rs".to_vec()));
    assert_eq!(w.lookup(&b"a.rs".to_vec()).unwrap().fingerprint, 50);
}

#[test]
fn acknowledging_clears_the_dirty_mark() {
    let mut w = Worktree::new(1);
    w.record_local_change(entry("new.rs", 5));
    assert!(w.is_dirty(&b"new.rs".to_vec()));
    w.acknowledge_clean(&b"new.rs".to_vec());
    assert!(!w.is_dirty(&b"new.rs".to_vec()));
    // Acknowledging an unknown path changes nothing.
    w.acknowledge_clean(&b"other.rs".to_vec());
    assert_eq!(w.entry_count(), 1);
}

#[test]
fn reset_replaces_the_snapshot_wholesale() {
    let mut w = Worktree::new(1);
    let d1 = Diff { base_version: 0, ops: vec![DiffOp::Insert { entry: entry("a.rs", 1) }] };
    w.apply_remote(d1).unwrap();
    w.record_local_change(entry("a.rs", 2));
    w.reset_to(9, vec![entry("fresh.rs", 7)]);
    assert_eq!(w.version(), 9);
    assert_eq!(w.entry_count(), 1);
    assert!(w.lookup(&b"fresh.rs".to_vec()).is_some());
    assert!(!w.is_dirty(&b"a.rs".to_vec()));
}
