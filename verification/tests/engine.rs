use memmap2::MmapMut;
use redb::db::{Database, DatabaseBuilder};
use redb::error::Error;

fn fresh_db(bytes: usize) -> Database {
    let mem = MmapMut::map_anon(bytes).unwrap();
    Database::new(mem, None).unwrap()
}

#[test]
fn non_page_size_multiple() {
    let db_size = 1024 * 1024 + 1;
    let mem = MmapMut::map_anon(db_size).unwrap();
    let mut db = Database::new(mem, None).unwrap();
    let table = db.open_table(b"x").unwrap();

    let key = vec![0; 1024];
    let value = vec![0; 1];
    let mut txn = table.begin_write(&mut db).unwrap();
    txn.insert(&key, &value).unwrap();
    txn.commit(&mut db).unwrap();

    let read_txn = table.read_transaction(&db).unwrap();
    assert_eq!(read_txn.len(&db).unwrap(), 1);
}

#[test]
fn last_write_wins_and_ordered_iteration() {
    let mut db = fresh_db(1024 * 1024);
    let table = db.open_table(b"t").unwrap();
    let mut txn = table.begin_write(&mut db).unwrap();
    txn.insert(b"bb", b"1").unwrap();
    txn.insert(b"aa", b"2").unwrap();
    txn.insert(b"cc", b"3").unwrap();
    txn.insert(b"bb", b"4").unwrap();
    assert_eq!(txn.get(b"bb").unwrap(), b"4".to_vec());
    txn.commit(&mut db).unwrap();

    let rt = table.read_transaction(&db).unwrap();
    assert_eq!(rt.len(&db).unwrap(), 3);
    assert_eq!(rt.get(&db, b"bb").unwrap().unwrap(), b"4".to_vec());
    assert_eq!(rt.get(&db, b"aa").unwrap().unwrap(), b"2".to_vec());
    let entries = rt.iterate(&db).unwrap();
    let keys: Vec<Vec<u8>> = entries.iter().map(|e| e.key.clone()).collect();
    assert_eq!(keys, vec![b"aa".to_vec(), b"bb".to_vec(), b"cc".to_vec()]);
}

#[test]
fn commit_atomicity_on_reopen() {
    let mut db = fresh_db(1024 * 1024);
    let table = db.open_table(b"t").unwrap();
    let mut txn = table.begin_write(&mut db).unwrap();
    txn.insert(b"k1", b"v1").unwrap();
    txn.commit(&mut db).unwrap();

    // A write transaction whose in-memory state is discarded before
    // commit must leave no trace after reopen.
    let mut txn = table.begin_write(&mut db).unwrap();
    txn.insert(b"k2", b"v2").unwrap();
    drop(txn);

    let region = db.into_region();
    let mut db2 = Database::new(region, None).unwrap();
    let table2 = db2.open_table(b"t").unwrap();
    let rt = table2.read_transaction(&db2).unwrap();
    assert_eq!(rt.len(&db2).unwrap(), 1);
    assert_eq!(rt.get(&db2, b"k1").unwrap().unwrap(), b"v1".to_vec());
    assert!(rt.get(&db2, b"k2").unwrap().is_none());
}

#[test]
fn read_isolation_across_commit() {
    let mut db = fresh_db(1024 * 1024);
    let table = db.open_table(b"t").unwrap();
    let mut txn = table.begin_write(&mut db).unwrap();
    txn.insert(b"k1", b"v1").unwrap();
    txn.commit(&mut db).unwrap();

    let rt_before = table.read_transaction(&db).unwrap();
    assert_eq!(rt_before.len(&db).unwrap(), 1);

    let mut txn = table.begin_write(&mut db).unwrap();
    txn.insert(b"k2", b"v2").unwrap();
    txn.commit(&mut db).unwrap();

    // The old snapshot observes nothing of the later commit.
    assert_eq!(rt_before.len(&db).unwrap(), 1);
    assert!(rt_before.get(&db, b"k2").unwrap().is_none());
    // A fresh snapshot sees it.
    let rt_after = table.read_transaction(&db).unwrap();
    assert_eq!(rt_after.len(&db).unwrap(), 2);
    assert_eq!(rt_after.get(&db, b"k2").unwrap().unwrap(), b"v2".to_vec());
}

#[test]
fn open_table_idempotent() {
    let mut db = fresh_db(1024 * 1024);
    let t1 = db.open_table(b"x").unwrap();
    let stats1 = db.stats().unwrap();
    let t2 = db.open_table(b"x").unwrap();
    let stats2 = db.stats().unwrap();
    assert_eq!(t1.get_id(), t2.get_id());
    // The second open was a no-op: no new commit, no new pages.
    assert_eq!(stats1.txn_id, stats2.txn_id);
    assert_eq!(stats1.free_pages, stats2.free_pages);
}

#[test]
fn multimap_dedup_and_remove() {
    let mut db = fresh_db(1024 * 1024);
    let table = db.open_multimap_table(b"m").unwrap();
    let mut txn = table.begin_write(&mut db).unwrap();
    txn.insert(b"k", b"v").unwrap();
    txn.insert(b"k", b"v").unwrap();
    txn.commit(&mut db).unwrap();

    let rt = table.read_transaction(&db).unwrap();
    assert_eq!(rt.get(&db, b"k").unwrap(), vec![b"v".to_vec()]);

    let mut txn = table.begin_write(&mut db).unwrap();
    txn.remove(b"k", b"v").unwrap();
    txn.commit(&mut db).unwrap();

    let rt = table.read_transaction(&db).unwrap();
    assert!(rt.get(&db, b"k").unwrap().is_empty());
    assert_eq!(rt.len(&db).unwrap(), 0);
}

#[test]
fn multimap_value_sets_are_sorted() {
    let mut db = fresh_db(1024 * 1024);
    let table = db.open_multimap_table(b"m").unwrap();
    let mut txn = table.begin_write(&mut db).unwrap();
    txn.insert(b"k", b"bb").unwrap();
    txn.insert(b"k", b"aa").unwrap();
    txn.insert(b"k", b"cc").unwrap();
    txn.commit(&mut db).unwrap();
    let rt = table.read_transaction(&db).unwrap();
    assert_eq!(
        rt.get(&db, b"k").unwrap(),
        vec![b"aa".to_vec(), b"bb".to_vec(), b"cc".to_vec()]
    );
    // The snapshot walks keys in order too.
    let entries = rt.iterate(&db).unwrap();
    assert_eq!(entries.len(), 1);
    assert_eq!(entries[0].key, b"k".to_vec());
}

#[test]
fn large_key_round_trip() {
    let mut db = fresh_db(1024 * 1024);
    let table = db.open_table(b"t").unwrap();
    let key = vec![7u8; 1024];
    let value = vec![9u8; 1];
    let mut txn = table.begin_write(&mut db).unwrap();
    txn.insert(&key, &value).unwrap();
    txn.commit(&mut db).unwrap();
    let rt = table.read_transaction(&db).unwrap();
    assert_eq!(rt.len(&db).unwrap(), 1);
    assert_eq!(rt.get(&db, &key).unwrap().unwrap(), value);
}

#[test]
fn unrecognized_header_is_rejected() {
    let mut mem = MmapMut::map_anon(1024 * 1024).unwrap();
    for i in 0..256 {
        mem[i] = 0xa5;
    }
    match Database::new(mem, None) {
        Err(Error::CorruptDatabase) => {}
        other => panic!("expected CorruptDatabase, got {:?}", other.is_ok()),
    }
}

#[test]
fn empty_table_name_is_rejected() {
    let mut db = fresh_db(1024 * 1024);
    assert!(matches!(db.open_table(b""), Err(Error::InvalidArgument)));
}

#[test]
fn oversized_entry_is_rejected() {
    let mut db = fresh_db(1024 * 1024);
    let table = db.open_table(b"t").unwrap();
    let mut txn = table.begin_write(&mut db).unwrap();
    let key = vec![1u8; 8192];
    assert_eq!(txn.insert(&key, b"v").unwrap_err(), Error::InvalidArgument);
    txn.abort(&mut db);
}

#[test]
fn second_writer_conflicts() {
    let mut db = fresh_db(1024 * 1024);
    let table = db.open_table(b"t").unwrap();
    let txn = table.begin_write(&mut db).unwrap();
    assert!(matches!(
        table.begin_write(&mut db),
        Err(Error::WriteConflict)
    ));
    // Opening a table is itself a one-operation write transaction, so it
    // conflicts too.
    assert!(matches!(db.open_table(b"other"), Err(Error::WriteConflict)));
    txn.abort(&mut db);
    assert!(db.open_table(b"other").is_ok());
}

#[test]
fn out_of_space_preserves_committed_data() {
    // A tiny store: one header page plus a handful of data pages.
    let mem = MmapMut::map_anon(4096 * 8).unwrap();
    let mut db = Database::new(mem, None).unwrap();
    let table = db.open_table(b"t").unwrap();

    let mut txn = table.begin_write(&mut db).unwrap();
    txn.insert(b"keep", b"me").unwrap();
    txn.commit(&mut db).unwrap();

    let mut hit_oos = false;
    for round in 0u32..64 {
        let mut txn = table.begin_write(&mut db).unwrap();
        let key = round.to_le_bytes();
        txn.insert(&key, b"x").unwrap();
        match txn.commit(&mut db) {
            Ok(()) => {}
            Err(e) => {
                assert_eq!(e, Error::OutOfSpace);
                hit_oos = true;
                break;
            }
        }
    }
    assert!(hit_oos);

    // The store is still readable and all committed data is intact.
    let rt = table.read_transaction(&db).unwrap();
    assert_eq!(rt.get(&db, b"keep").unwrap().unwrap(), b"me".to_vec());

    // And reopening the region shows a consistent committed state too.
    let region = db.into_region();
    let mut db2 = Database::new(region, None).unwrap();
    let table2 = db2.open_table(b"t").unwrap();
    let rt2 = table2.read_transaction(&db2).unwrap();
    assert_eq!(rt2.get(&db2, b"keep").unwrap().unwrap(), b"me".to_vec());
}

#[test]
fn builder_page_size_survives_reopen() {
    let mem = MmapMut::map_anon(1024 * 256).unwrap();
    let mut builder = DatabaseBuilder::new();
    builder.set_page_size(1024);
    let mut db = builder.create(mem).unwrap();
    let table = db.open_table(b"t").unwrap();
    let mut txn = table.begin_write(&mut db).unwrap();
    txn.insert(b"k", b"v").unwrap();
    txn.commit(&mut db).unwrap();

    // Reopening with no configured size picks the stored page size up.
    let region = db.into_region();
    let mut db2 = Database::new(region, None).unwrap();
    let table2 = db2.open_table(b"t").unwrap();
    let rt = table2.read_transaction(&db2).unwrap();
    assert_eq!(rt.get(&db2, b"k").unwrap().unwrap(), b"v".to_vec());

    // Reopening with a mismatched size is rejected.
    let region = db2.into_region();
    let mut builder = DatabaseBuilder::new();
    builder.set_page_size(4096);
    assert!(matches!(builder.create(region), Err(Error::InvalidArgument)));
}

#[test]
fn many_entries_round_trip_in_order() {
    let mut db = fresh_db(4 * 1024 * 1024);
    let table = db.open_table(b"t").unwrap();
    let mut txn = table.begin_write(&mut db).unwrap();
    for i in 0u32..200 {
        let key = i.to_be_bytes();
        let value = i.to_le_bytes();
        txn.insert(&key, &value).unwrap();
    }
    txn.commit(&mut db).unwrap();
    let rt = table.read_transaction(&db).unwrap();
    assert_eq!(rt.len(&db).unwrap(), 200);
    let entries = rt.iterate(&db).unwrap();
    for i in 0u32..200 {
        assert_eq!(entries[i as usize].key, i.to_be_bytes().to_vec());
        assert_eq!(entries[i as usize].value, i.to_le_bytes().to_vec());
    }
    // And it all survives a reopen through the persisted pages.
    let region = db.into_region();
    let mut db2 = Database::new(region, None).unwrap();
    let table2 = db2.open_table(b"t").unwrap();
    let rt2 = table2.read_transaction(&db2).unwrap();
    assert_eq!(rt2.len(&db2).unwrap(), 200);
    assert_eq!(
        rt2.get(&db2, &77u32.to_be_bytes()).unwrap().unwrap(),
        77u32.to_le_bytes().to_vec()
    );
}

#[test]
fn stats_and_debug_dump() {
    let mut db = fresh_db(1024 * 1024);
    let stats = db.stats().unwrap();
    assert_eq!(stats.total_pages, 1024 * 1024 / 4096 - 1);
    assert_eq!(stats.txn_id, 0);
    let table = db.open_table(b"t").unwrap();
    let _ = table;
    let stats = db.stats().unwrap();
    assert_eq!(stats.txn_id, 1);
    assert_eq!(stats.used_pages + stats.free_pages, stats.total_pages);
    assert!(stats.tree_height >= 1);
    let dump = db.print_debug();
    assert!(!dump.is_empty());
    assert!(dump.starts_with(b"pages total="));
}
