use txstore::database::Database;
use txstore::errors::DbError;
use txstore::filemanager::BlockId;
use txstore::transaction::Transaction;

#[test]
fn scenario_pool_exhaustion() {
    // pool of 3 slots: a 4th distinct pin cannot be served
    let mut db = Database::new("db.log", 64, 3);
    let mut tx = Transaction::new(&mut db);
    let b0 = tx.append(&mut db, "data");
    let b1 = tx.append(&mut db, "data");
    let b2 = tx.append(&mut db, "data");
    let b3 = tx.append(&mut db, "data");
    tx.pin(&mut db, &b0).unwrap();
    tx.pin(&mut db, &b1).unwrap();
    tx.pin(&mut db, &b2).unwrap();
    assert_eq!(db.available_buffers(), 0);
    assert_eq!(tx.pin(&mut db, &b3), Err(DbError::BufferUnavailable));
    tx.unpin(&mut db, &b0);
    assert_eq!(db.available_buffers(), 1);
    tx.pin(&mut db, &b3).unwrap();
    assert_eq!(db.available_buffers(), 0);
}

#[test]
fn scenario_log_rollover() {
    // a block size that forces rollover after two records
    let mut db = Database::new("db.log", 20, 3);
    db.lm.append(&mut db.fm, b"foo".to_vec());
    db.lm.append(&mut db.fm, b"bar".to_vec());
    db.lm.append(&mut db.fm, b"fizz".to_vec());
    db.lm.append(&mut db.fm, b"buzz".to_vec());
    db.lm.flush(&mut db.fm);
    assert_eq!(db.fm.length("db.log"), Some(2));
    let mut it = db.lm.iterator(&mut db.fm);
    assert_eq!(it.next(&mut db.fm), Some(b"buzz".to_vec()));
    assert_eq!(it.next(&mut db.fm), Some(b"fizz".to_vec()));
    assert_eq!(it.next(&mut db.fm), Some(b"bar".to_vec()));
    assert_eq!(it.next(&mut db.fm), Some(b"foo".to_vec()));
    assert_eq!(it.next(&mut db.fm), None);
}

#[test]
fn scenario_crash_before_commit() {
    let mut db = Database::new("wal.log", 80, 3);
    let mut tx = Transaction::new(&mut db);
    let blk = tx.append(&mut db, "data");
    assert_eq!(tx.get_int(&mut db, &blk, 0), Ok(0));
    // the transaction holds only a shared lock now; a fresh transaction writes
    tx.commit(&mut db);
    let mut tx2 = Transaction::new(&mut db);
    tx2.set_int(&mut db, &blk, 0, Some(65), true).unwrap();
    // the page is stolen to disk before the transaction finishes
    db.bm.flush_all_buffers(&mut db.fm, &mut db.lm, tx2.txn_num);
    assert_eq!(db.fm.get_block("data", 0).unwrap()[3], 65);
    // crash: buffers and the log tail die, the store survives
    let store = db.into_store();
    let mut db2 = Database::from_store(store, "wal.log", 3);
    let mut rtx = Transaction::new(&mut db2);
    rtx.recover(&mut db2).unwrap();
    // the uncommitted write was undone
    assert_eq!(db2.fm.get_block("data", 0).unwrap()[3], 0);
    let mut tx3 = Transaction::new(&mut db2);
    assert_eq!(tx3.get_int(&mut db2, &BlockId::new("data", 0), 0), Ok(0));
}

#[test]
fn scenario_committed_value_survives_recovery() {
    let mut db = Database::new("wal.log", 80, 3);
    let mut tx = Transaction::new(&mut db);
    let blk = tx.append(&mut db, "data");
    tx.set_int(&mut db, &blk, 0, Some(65), true).unwrap();
    tx.commit(&mut db);
    assert_eq!(db.fm.get_block("data", 0).unwrap()[3], 65);
    let store = db.into_store();
    let mut db2 = Database::from_store(store, "wal.log", 3);
    let mut rtx = Transaction::new(&mut db2);
    // backward scan meets the Commit record before the SetInt record, so the
    // transaction is finished and nothing is undone
    rtx.recover(&mut db2).unwrap();
    assert_eq!(db2.fm.get_block("data", 0).unwrap()[3], 65);
}

#[test]
fn recovery_twice_mutates_nothing_further() {
    let mut db = Database::new("wal.log", 80, 3);
    let mut tx = Transaction::new(&mut db);
    let blk = tx.append(&mut db, "data");
    tx.set_int(&mut db, &blk, 0, Some(65), true).unwrap();
    db.bm.flush_all_buffers(&mut db.fm, &mut db.lm, tx.txn_num);
    let store = db.into_store();
    let mut db2 = Database::from_store(store, "wal.log", 3);
    let mut rtx = Transaction::new(&mut db2);
    rtx.recover(&mut db2).unwrap();
    let snap = db2.fm.get_block("data", 0).unwrap();
    // the second run sees only the Checkpoint record and undoes nothing
    let mut rtx2 = Transaction::new(&mut db2);
    rtx2.recover(&mut db2).unwrap();
    assert_eq!(db2.fm.get_block("data", 0).unwrap(), snap);
}

#[test]
fn rollback_restores_old_value() {
    let mut db = Database::new("wal.log", 80, 3);
    let mut tx = Transaction::new(&mut db);
    let blk = tx.append(&mut db, "data");
    tx.set_int(&mut db, &blk, 4, Some(1234), true).unwrap();
    let mut probe = Transaction::new(&mut db);
    tx.rollback(&mut db).unwrap();
    assert_eq!(probe.get_int(&mut db, &blk, 4), Ok(0));
}

#[test]
fn strings_round_trip_through_transactions() {
    let mut db = Database::new("wal.log", 128, 3);
    let mut tx = Transaction::new(&mut db);
    let blk = tx.append(&mut db, "data");
    tx.set_string(&mut db, &blk, 0, Some("hello".to_string()), true).unwrap();
    assert_eq!(tx.get_string(&mut db, &blk, 0), Ok("hello".to_string()));
    tx.commit(&mut db);
    // reopen and read the committed value back from durable storage
    let store = db.into_store();
    let mut db2 = Database::from_store(store, "wal.log", 3);
    let mut tx2 = Transaction::new(&mut db2);
    assert_eq!(
        tx2.get_string(&mut db2, &BlockId::new("data", 0), 0),
        Ok("hello".to_string()),
    );
}

#[test]
fn transaction_errors() {
    let mut db = Database::new("wal.log", 64, 2);
    let mut tx = Transaction::new(&mut db);
    let blk = tx.append(&mut db, "data");
    // out of range: past the block's end
    assert_eq!(tx.get_int(&mut db, &blk, 61), Err(DbError::OutOfRange));
    assert_eq!(tx.get_int(&mut db, &blk, -1), Err(DbError::OutOfRange));
    // a block that does not exist
    let ghost_block = BlockId::new("nothing", 0);
    assert_eq!(tx.pin(&mut db, &ghost_block), Err(DbError::BlockNotFound));
    // a shared lock cannot be upgraded: reading then writing the same block
    assert_eq!(tx.get_int(&mut db, &blk, 0), Ok(0));
    assert_eq!(
        tx.set_int(&mut db, &blk, 0, Some(1), true),
        Err(DbError::LockTimeout),
    );
}

#[test]
fn transaction_surface() {
    let mut db = Database::new("wal.log", 64, 4);
    let mut tx = Transaction::new(&mut db);
    assert_eq!(tx.block_size(&db), 64);
    assert_eq!(tx.available_buffers(&db), 4);
    assert_eq!(tx.size(&db, "data"), None);
    let blk = tx.append(&mut db, "data");
    assert_eq!(tx.size(&db, "data"), Some(1));
    tx.pin(&mut db, &blk).unwrap();
    assert_eq!(tx.available_buffers(&db), 3);
    tx.unpin(&mut db, &blk);
    assert_eq!(tx.available_buffers(&db), 4);
    tx.commit(&mut db);
}
