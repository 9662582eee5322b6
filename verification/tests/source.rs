//! Objects that are fetched when they are needed.

use versioning::commit::encode_v2;
use versioning::model::{CommitId, VersionError, VersionResult};
use versioning::refs::{RefName, RefStore};
use versioning::remote_transport::{MemHub, MemTransport};
use versioning::remote_wire::{encode_snapshot_record, SourceId, SYNC_BATCH_SIZE};
use versioning::source::{ChunkSource, OriginSource};
use versioning::staging::VcStore;
use versioning::values::{VcRow, VcValue};


/// A source that gives what it was told to, and counts how often it is asked.
struct Fake {
    objects: Vec<(SourceId, Vec<u8>)>,
    gets: usize,
    batches: usize,
    fail_batches: bool,
}

impl Fake {
    fn new() -> Self {
        Fake {
            objects: Vec::new(),
            gets: 0,
            batches: 0,
            fail_batches: false,
        }
    }

    fn find(&self, id: &SourceId) -> Option<Vec<u8>> {
        self.objects
            .iter()
            .find(|(k, _)| k == id)
            .map(|(_, b)| b.clone())
    }
}

impl ChunkSource for Fake {
    type State = ();

    fn get(&mut self, id: SourceId) -> VersionResult<Vec<u8>> {
        self.gets += 1;
        self.find(&id)
            .ok_or_else(|| VersionError::ChunkNotFound(id.to_hex()))
    }

    fn get_many(&mut self, ids: &Vec<SourceId>) -> VersionResult<Vec<Option<Vec<u8>>>> {
        self.batches += 1;
        if self.fail_batches {
            return Err(VersionError::FetchFailed);
        }
        Ok(ids.iter().map(|id| self.find(id)).collect())
    }
}

fn commit_with_snapshot(tag: u8, tables: usize) -> (VcStore, CommitId) {
    let mut store = VcStore::new("main");
    store.config_set("user.name", "A");
    store.config_set("user.email", "a@b");
    store.set_now(100 + tag as i64);
    let mut names = Vec::new();
    for t in 0..tables {
        let name = format!("t{t}");
        store.apply_work(
            &name,
            vec!["id".to_string()],
            vec!["id".to_string()],
            vec![VcRow::new(vec![
                VcValue::Integer(t as i64),
            ])],
            String::new(),
        );
        store.track_table(&name);
        names.push(name);
    }
    for name in &names {
        store.dolt_add(&[name.as_str()]).unwrap();
    }
    let tip = store.dolt_commit("m", None, false, false).unwrap();
    for name in &names {
        store.record_snapshot(
            tip,
            name,
            vec!["id".to_string()],
            vec!["id".to_string()],
            store.work_table(name).unwrap().rows.clone(),
            String::new(),
        );
    }
    (store, tip)
}

/// Give a source the objects of a store, and list their ids.
fn seed_source(store: &VcStore, tip: CommitId, source: &mut Fake) -> Vec<SourceId> {
    let mut catalog = vec![SourceId::Commit(tip)];
    if let Some(commit) = store.get_commit(&tip) {
        source
            .objects
            .push((SourceId::Commit(tip), encode_v2(&commit)));
    }
    if let Some(tables) = store.snapshots.get(&tip) {
        for (table, snap) in &tables.entries {
            let (id, bytes) = encode_snapshot_record(&tip, table, snap);
            source.objects.push((SourceId::Snapshot(id), bytes));
            catalog.push(SourceId::Snapshot(id));
        }
    }
    catalog
}

#[test]
fn source_hydrate_fetches_missing_and_verifies() {
    let (owner, tip) = commit_with_snapshot(1, 2);
    let mut fake = Fake::new();
    let catalog = seed_source(&owner, tip, &mut fake);

    let mut lazy = VcStore::new("main");
    lazy.refs.set(&RefName::branch("main"), tip);
    lazy.branches.insert("main");
    lazy.note_lazy_catalog(tip, catalog);
    lazy.hydrate_with(&mut fake, tip).unwrap();
    assert!(lazy.get_commit(&tip).is_some());
    assert_eq!(lazy.snapshots.get(&tip).map(|t| t.len()), Some(2));
}

#[test]
fn source_second_hydrate_makes_no_calls() {
    let (owner, tip) = commit_with_snapshot(2, 1);
    let mut fake = Fake::new();
    let catalog = seed_source(&owner, tip, &mut fake);
    let mut lazy = VcStore::new("main");
    lazy.note_lazy_catalog(tip, catalog);
    lazy.hydrate_with(&mut fake, tip).unwrap();
    fake.batches = 0;
    fake.gets = 0;
    lazy.hydrate_with(&mut fake, tip).unwrap();
    assert_eq!(fake.batches, 0);
    assert_eq!(fake.gets, 0);
}

#[test]
fn source_one_commit_uses_one_batch() {
    let (owner, tip) = commit_with_snapshot(3, 3);
    let mut fake = Fake::new();
    let catalog = seed_source(&owner, tip, &mut fake);
    let mut lazy = VcStore::new("main");
    lazy.note_lazy_catalog(tip, catalog);
    lazy.hydrate_with(&mut fake, tip).unwrap();
    assert_eq!(fake.batches, 1);
}

#[test]
fn source_missing_object_names_hash() {
    let mut fake = Fake::new();
    let tip = CommitId([0x5A; 20]);
    let mut store = VcStore::new("main");
    let err = store.hydrate_with(&mut fake, tip).unwrap_err();
    assert_eq!(err, VersionError::ChunkNotFound(tip.to_hex()));
}

#[test]
fn source_corrupt_bytes_rejected_and_not_stored() {
    let (owner, tip) = commit_with_snapshot(4, 1);
    let mut fake = Fake::new();
    let catalog = seed_source(&owner, tip, &mut fake);
    // Other bytes under the same id.
    for (id, bytes) in fake.objects.iter_mut() {
        if *id == SourceId::Commit(tip) {
            let last = bytes.len() - 1;
            bytes[last] ^= 0xFF;
        }
    }
    let mut lazy = VcStore::new("main");
    lazy.note_lazy_catalog(tip, catalog);
    let err = lazy.hydrate_with(&mut fake, tip).unwrap_err();
    assert_eq!(err, VersionError::ChunkVerificationFailed(tip.to_hex()));
    assert!(lazy.get_commit(&tip).is_none());
}

#[test]
fn source_failed_batch_stores_nothing() {
    let (owner, tip) = commit_with_snapshot(5, 2);
    let mut fake = Fake::new();
    let catalog = seed_source(&owner, tip, &mut fake);
    fake.fail_batches = true;
    let mut lazy = VcStore::new("main");
    lazy.note_lazy_catalog(tip, catalog);
    assert!(lazy.hydrate_with(&mut fake, tip).is_err());
    assert!(lazy.get_commit(&tip).is_none());
}

#[test]
fn source_materialize_clears_lazy_origin() {
    let (owner, tip) = commit_with_snapshot(6, 1);
    let mut t = MemTransport::open(&mut MemHub::new(), "src-mat-1", false, None);
    let mut pusher = owner;
    pusher.remote_add("origin", "mem://src-mat-1").unwrap();
    pusher.push(&mut t, "origin", "main", false).unwrap();

    let mut lazy = VcStore::new("main");
    lazy.clone_remote(&mut t, "mem://src-mat-1", true).unwrap();
    assert_eq!(lazy.lazy_origin(), Some("mem://src-mat-1"));
    assert!(lazy.get_commit(&tip).is_none());
    lazy.materialize(&mut OriginSource::new(t)).unwrap();
    assert!(lazy.get_commit(&tip).is_some());
    assert_eq!(lazy.lazy_origin(), None);
}

#[test]
fn source_lazy_hydrate_uses_origin() {
    let mut t = MemTransport::open(&mut MemHub::new(), "src-lazy-1", false, None);
    let (owner, tip) = commit_with_snapshot(7, 1);
    let mut pusher = owner;
    pusher.remote_add("origin", "mem://src-lazy-1").unwrap();
    pusher.push(&mut t, "origin", "main", false).unwrap();
    let mut lazy = VcStore::new("main");
    lazy.clone_remote(&mut t, "mem://src-lazy-1", true).unwrap();
    lazy.lazy_hydrate(&mut OriginSource::new(t), tip).unwrap();
    assert!(lazy.get_commit(&tip).is_some());
}

#[test]
fn source_batch_cap_respected() {
    assert_eq!(SYNC_BATCH_SIZE, 256);
}
