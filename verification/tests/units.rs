use txstore::buffermanager::{Buffer, BufferManager};
use txstore::concurrencymanager::ConcurrencyManager;
use txstore::errors::DbError;
use txstore::filemanager::{BlockId, BlockStore, FileManagerStats, Page};
use txstore::logmanager::{LogIterator, LogManager};
use txstore::logrecord::{LogRecord, LogRecordFactory, SetIntLogRecord, SetStringLogRecord,
    CommitLogRecord, CHECKPOINT, COMMIT, SETINT, SETSTRING, START};

#[test]
fn test_block_id() {
    let bid = BlockId::new("test.file", 0);
    assert_eq!(bid.file_name(), "test.file".to_string());
    assert_eq!(bid.block_num(), 0);
    let bid2 = BlockId::new("test.file", 0);
    assert!(bid == bid2);
    let bid3 = BlockId::new("test.file", 1);
    assert!(!(bid == bid3));
}

#[test]
fn test_page() {
    let mut page = Page::builder().block_size(16).with_buffer().build();
    assert_eq!(page.block_size(), 16);
    assert_eq!(page.size(), 16);
    assert_eq!(page.get_int(0), Some(0));
    page.set_int(0, Some(65)).unwrap();
    assert_eq!(page.get_int(0), Some(65));
    page.set_bytes(4, Some(b"B")).unwrap();
    assert_eq!(page.get_bytes(4), Some(vec![66u8]));
    let expected: Vec<u8> = vec![0, 0, 0, 65, 0, 0, 0, 1, 66, 0, 0, 0, 0, 0, 0, 0];
    assert_eq!(page.bytes(), &expected);

    assert_eq!(page.get_bytes(13), None);
    assert_eq!(page.get_int(13), None);
    assert_eq!(page.get_string(13), None);
    assert_eq!(page.set_int(13, Some(7)), Err(DbError::OutOfRange));

    page.set_string(4, Some("abc".to_string())).unwrap();
    assert_eq!(page.get_string(4), Some("abc".to_string()));

    page.flush();
    assert_eq!(page.get_int(0), Some(0));
    assert_eq!(page.get_string(4), Some("".to_string()));

    let page2 = Page::builder().with_log_buffer(vec![0; 16]).build();
    assert_eq!(page2.get_int(0), Some(0));
}

#[test]
fn test_file_manager() {
    let mut fm = BlockStore::new(4);
    assert_eq!(fm.is_new(), true);
    assert_eq!(fm.block_size(), 4);
    assert_eq!(fm.length("test.block"), None);

    let blid = fm.append("test.block");
    assert_eq!(blid.block_num(), 0);
    assert_eq!(fm.length("test.block"), Some(1));

    let mut page = Page::builder().block_size(4).with_buffer().build();
    page.set_int(0, Some(0x42000000)).unwrap();
    fm.write(&blid, &page).expect("failed to write block");
    assert_eq!(fm.get_block("test.block", 0), Some(vec![66, 0, 0, 0]));

    let mut page2 = Page::builder().block_size(4).with_buffer().build();
    fm.read(&blid, &mut page2).expect("failed to read block");
    assert_eq!(page2.get_int(0), Some(0x42000000));

    let blid2 = fm.append("test.block");
    assert_eq!(blid2.block_num(), 1);
    let mut page3 = Page::builder().block_size(4).with_buffer().build();
    page3.set_int(0, Some(0x464F4F00)).unwrap();
    fm.write(&blid2, &page3).expect("failed to write block");
    assert_eq!(fm.get_block("test.block", 1), Some(vec![70, 79, 79, 0]));
    assert_eq!(fm.get_block("test.block", 0), Some(vec![66, 0, 0, 0]));

    let missing = BlockId::new("test.block", 9);
    let mut page4 = Page::builder().block_size(4).with_buffer().build();
    assert_eq!(fm.read(&missing, &mut page4), Err(DbError::BlockNotFound));
}

#[test]
fn test_block_store_stats() {
    let mut fm = BlockStore::new(8);
    assert!(fm.stats().is_none());
    fm.with_stats();
    let blid = fm.append("data");
    let page = Page::builder().block_size(8).with_buffer().build();
    fm.write(&blid, &page).unwrap();
    let mut page2 = Page::builder().block_size(8).with_buffer().build();
    fm.read(&blid, &mut page2).unwrap();
    let st = fm.stats().unwrap();
    assert_eq!(st.blocks_read(), 1);
    assert_eq!(st.blocks_write(), 1);

    let mut counters = FileManagerStats::new();
    assert_eq!(counters.blocks_read(), 0);
    assert_eq!(counters.blocks_write(), 0);
    counters.set_blocks_read(5);
    counters.set_blocks_write(7);
    assert_eq!(counters.blocks_read(), 5);
    assert_eq!(counters.blocks_write(), 7);
}

#[test]
fn test_log_manger_builder() {
    let mut fm = BlockStore::new(32);
    let log_manager = LogManager::builder("log.wal".to_string()).build(&mut fm);
    assert_eq!(log_manager.block_id.block_num(), 0);
    assert_eq!(log_manager.latest_lsn, 0);
    assert_eq!(log_manager.last_lsn, 0);
    assert_eq!(log_manager.log_page.get_int(0), Some(32));
}

#[test]
fn test_log_manger_append() {
    let mut fm = BlockStore::new(32);
    let mut log_manager = LogManager::builder("log.wal".to_string()).build(&mut fm);
    assert_eq!(log_manager.block_id.block_num(), 0);
    assert_eq!(log_manager.latest_lsn, 0);
    assert_eq!(log_manager.last_lsn, 0);
    assert_eq!(log_manager.log_page.get_int(0), Some(32));

    log_manager.append(&mut fm, "foo".as_bytes().to_vec());
    assert_eq!(log_manager.latest_lsn, 1);
    log_manager.append(&mut fm, "bar".as_bytes().to_vec());
    assert_eq!(log_manager.latest_lsn, 2);
    log_manager.append(&mut fm, "fizz".as_bytes().to_vec());
    assert_eq!(log_manager.latest_lsn, 3);
    // This append rolls over to a fresh block and flushes the old one
    log_manager.append(&mut fm, "buzz".as_bytes().to_vec());
    assert_eq!(log_manager.latest_lsn, 4);
    assert_eq!(log_manager.block_id.block_num(), 1);
}

#[test]
fn test_log_iterator() {
    let mut fm = BlockStore::new(32);
    let mut log_manager = LogManager::builder("log.wal".to_string()).build(&mut fm);
    log_manager.append(&mut fm, "foo".as_bytes().to_vec());
    log_manager.append(&mut fm, "bar".as_bytes().to_vec());
    log_manager.flush(&mut fm);
    let initial_block_id = BlockId::new("log.wal", 0);

    let mut log_iterator = LogIterator::new(&mut fm, initial_block_id);
    let first = log_iterator.next(&mut fm);
    assert!(first.is_some());
    assert_eq!(first.unwrap(), vec![98, 97, 114]);
    let second = log_iterator.next(&mut fm);
    assert!(second.is_some());
    assert_eq!(second.unwrap(), vec![102, 111, 111]);
    assert_eq!(log_iterator.next(&mut fm), None);
}

#[test]
fn test_buffer() {
    let buffer = Buffer::new(16);
    assert_eq!(buffer.pinned(), false);
    assert_eq!(buffer.txn, None);
    assert_eq!(buffer.lsn, None);
    assert!(buffer.block_id().is_none());
}

#[test]
fn test_buffer_manager() {
    let buffer_manager = BufferManager::new(16, 5);
    assert_eq!(buffer_manager.available_buffers(), 5);
    let maybe_buffer = buffer_manager.find_buffer(&BlockId::new("test", 1));
    assert!(maybe_buffer.is_none());
}

#[test]
fn pin_accounting_over_pool() {
    let mut fm = BlockStore::new(16);
    let lm = LogManager::builder("log.wal".to_string()).build(&mut fm);
    let b0 = fm.append("data");
    let b1 = fm.append("data");
    let mut bm = BufferManager::new(16, 2);
    assert_eq!(bm.available_buffers(), 2);
    let i0 = bm.pin(&mut fm, &lm, &b0).unwrap();
    assert_eq!(bm.available_buffers(), 1);
    let i0b = bm.pin(&mut fm, &lm, &b0).unwrap();
    assert_eq!(i0, i0b);
    assert_eq!(bm.available_buffers(), 1);
    let i1 = bm.pin(&mut fm, &lm, &b1).unwrap();
    assert!(i1 != i0);
    assert_eq!(bm.available_buffers(), 0);
    bm.unpin(i0);
    assert_eq!(bm.available_buffers(), 0);
    bm.unpin(i0);
    assert_eq!(bm.available_buffers(), 1);
    bm.unpin(i1);
    assert_eq!(bm.available_buffers(), 2);
    // the same block never sits in two slots
    assert_eq!(bm.find_buffer(&b0), Some(i0));
    assert_eq!(bm.find_buffer(&b1), Some(i1));
}

#[test]
fn lock_table_descriptors() {
    let mut cm = ConcurrencyManager::new();
    let a = BlockId::new("data", 0);
    let b = BlockId::new("data", 1);
    assert_eq!(cm.held(&a), 0);
    cm.acquire_s_lock(&a).unwrap();
    assert_eq!(cm.held(&a), 1);
    cm.acquire_s_lock(&a).unwrap();
    assert_eq!(cm.held(&a), 2);
    assert_eq!(cm.acquire_x_lock(&a), Err(DbError::LockTimeout));
    cm.acquire_x_lock(&b).unwrap();
    assert_eq!(cm.held(&b), -1);
    assert_eq!(cm.acquire_s_lock(&b), Err(DbError::LockTimeout));
    cm.release();
    assert_eq!(cm.held(&a), 0);
    assert_eq!(cm.held(&b), 0);
}

#[test]
fn set_int_record_round_trip() {
    let mut fm = BlockStore::new(128);
    let mut lm = LogManager::builder("log.wal".to_string()).build(&mut fm);
    let blk = BlockId::new("data", 7);
    let lsn = SetIntLogRecord::write_to_log_record(&mut lm, &mut fm, 3, &blk, 8, 42);
    assert_eq!(lsn, 1);
    let mut it = lm.iterator(&mut fm);
    let bytes = it.next(&mut fm).unwrap();
    match LogRecordFactory::create_log_record(bytes) {
        Some(LogRecord::SetInt(r)) => {
            assert_eq!(r.tx_number, 3);
            assert_eq!(r.block_id.file_name(), "data".to_string());
            assert_eq!(r.block_id.block_num(), 7);
            assert_eq!(r.offset, 8);
            assert_eq!(r.value, 42);
        },
        _ => panic!("expected a SetInt record"),
    }
}

#[test]
fn set_string_record_round_trip() {
    let mut fm = BlockStore::new(128);
    let mut lm = LogManager::builder("log.wal".to_string()).build(&mut fm);
    let blk = BlockId::new("data", 2);
    let lsn = SetStringLogRecord::write_to_log_record(
        &mut lm,
        &mut fm,
        9,
        &blk,
        12,
        "old text".to_string(),
    );
    assert_eq!(lsn, 1);
    let mut it = lm.iterator(&mut fm);
    let bytes = it.next(&mut fm).unwrap();
    let page = Page::builder().with_log_buffer(bytes.clone()).build();
    let rec = SetStringLogRecord::new(page).unwrap();
    assert_eq!(rec.tx_number, 9);
    assert_eq!(rec.block_id.file_name(), "data".to_string());
    assert_eq!(rec.block_id.block_num(), 2);
    assert_eq!(rec.offset, 12);
    assert_eq!(rec.value, "old text".to_string());
    match LogRecordFactory::create_log_record(bytes) {
        Some(LogRecord::SetString(r)) => assert_eq!(r.value, "old text".to_string()),
        _ => panic!("expected a SetString record"),
    }
}

#[test]
fn txn_only_records_round_trip() {
    let mut fm = BlockStore::new(64);
    let mut lm = LogManager::builder("log.wal".to_string()).build(&mut fm);
    CommitLogRecord::write_to_log_record(&mut lm, &mut fm, 11);
    txstore::logrecord::write_txn_only_record(&mut lm, &mut fm, START, 12);
    txstore::logrecord::write_checkpoint_record(&mut lm, &mut fm);
    let mut it = lm.iterator(&mut fm);
    let newest = LogRecordFactory::create_log_record(it.next(&mut fm).unwrap()).unwrap();
    assert_eq!(newest.operation(), CHECKPOINT);
    let second = LogRecordFactory::create_log_record(it.next(&mut fm).unwrap()).unwrap();
    assert_eq!(second.operation(), START);
    assert_eq!(second.tx_number(), 12);
    let third = LogRecordFactory::create_log_record(it.next(&mut fm).unwrap()).unwrap();
    assert_eq!(third.operation(), COMMIT);
    assert_eq!(third.tx_number(), 11);
    assert_eq!(it.next(&mut fm), None);
}

#[test]
fn corrupt_record_is_reported() {
    // tag 9 names no operation
    let bad = Page::builder().with_log_buffer(vec![0, 0, 0, 9]).build();
    assert!(LogRecordFactory::create_log_record(vec![0, 0, 0, 9]).is_none());
    match SetIntLogRecord::new(bad) {
        Err(e) => assert_eq!(e, DbError::CorruptLogRecord),
        Ok(_) => panic!("a corrupt record must not decode"),
    }
    // truncated record
    assert!(LogRecordFactory::create_log_record(vec![0, 0]).is_none());
    // a SetInt record with a truncated body
    assert!(LogRecordFactory::create_log_record(vec![0, 0, 0, 4, 0, 0]).is_none());
    // the wire tags of the six operations
    assert_eq!((CHECKPOINT, START, COMMIT), (0, 1, 2));
    assert_eq!((txstore::logrecord::ROLLBACK, SETINT, SETSTRING), (3, 4, 5));
    let commit_page = Page::builder().with_log_buffer(vec![0, 0, 0, 2, 0, 0, 0, 5]).build();
    let commit_rec = CommitLogRecord::new(commit_page).unwrap();
    assert_eq!(commit_rec.tx_number, 5);
    let start_page = Page::builder().with_log_buffer(vec![0, 0, 0, 1, 0, 0, 0, 5]).build();
    match CommitLogRecord::new(start_page) {
        Err(e) => assert_eq!(e, DbError::CorruptLogRecord),
        Ok(_) => panic!("a Start record is no Commit record"),
    }
}

#[test]
fn none_values_write_nothing() {
    let mut page = Page::builder().block_size(16).with_buffer().build();
    page.set_int(0, Some(9)).unwrap();
    let before = page.bytes().clone();
    page.set_int(0, None).unwrap();
    page.set_bytes(4, None).unwrap();
    page.set_string(4, None).unwrap();
    assert_eq!(page.bytes(), &before);
}

#[test]
fn oversized_values_are_rejected() {
    let mut page = Page::builder().block_size(16).with_buffer().build();
    // 13 bytes of payload need 4 + 13 > 16 - 4 bytes from offset 4
    assert_eq!(
        page.set_bytes(4, Some(b"thirteen byte")),
        Err(DbError::OutOfRange),
    );
    assert_eq!(
        page.set_string(0, Some("a much too long string value".to_string())),
        Err(DbError::OutOfRange),
    );
    assert_eq!(page.get_int(0), Some(0));
}

#[test]
fn log_validation() {
    let mut fm = BlockStore::new(32);
    // no log file at all is a valid (empty) log
    assert!(txstore::logmanager::log_file_parses(&fm, "log.wal"));
    let mut lm = LogManager::builder("log.wal".to_string()).build(&mut fm);
    lm.append(&mut fm, b"one".to_vec());
    lm.append(&mut fm, b"two".to_vec());
    lm.flush(&mut fm);
    assert!(txstore::logmanager::log_file_parses(&fm, "log.wal"));
    // a file of raw zero blocks is no log: its boundary pointer is 0
    let blid = fm.append("junk");
    assert_eq!(blid.block_num(), 0);
    assert!(!txstore::logmanager::log_file_parses(&fm, "junk"));
}

#[test]
fn log_survives_reopen() {
    let mut fm = BlockStore::new(32);
    let mut lm = LogManager::builder("log.wal".to_string()).build(&mut fm);
    lm.append(&mut fm, b"alpha".to_vec());
    lm.append(&mut fm, b"beta".to_vec());
    lm.flush(&mut fm);
    // the manager is dropped; a fresh one reopens the same store
    let mut lm2 = LogManager::builder("log.wal".to_string()).build(&mut fm);
    let mut it = lm2.iterator(&mut fm);
    assert_eq!(it.next(&mut fm), Some(b"beta".to_vec()));
    assert_eq!(it.next(&mut fm), Some(b"alpha".to_vec()));
    assert_eq!(it.next(&mut fm), None);
}
