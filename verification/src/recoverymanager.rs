//! Commit, rollback and crash recovery over the undo log.
//!
//! Before a page changes, the old value is read from the live buffer and
//! appended to the log as an undo record; the returned LSN becomes the
//! buffer's durability floor. Commit flushes the transaction's buffers and
//! makes the commit record durable before returning.

use vstd::prelude::*;
use vstd::string::StringSliceAdditionalSpecFns;
use crate::database::Database;
use crate::errors::DbError;
use crate::codec::{be_of_i32, splice};
use crate::filemanager::{BlockIdView, BlockStore, int_in_range, len_prefixed, page_i32_at,
    page_bytes_at, bytes_readable};
use crate::buffermanager::pool_writes;
use crate::logmanager::durable_records;
use crate::logrecord::{CommitLogRecord, LogRecordFactory, SetIntLogRecord, SetStringLogRecord,
    decode_record, encode_checkpoint, encode_set_int, encode_set_string, encode_txn_only,
    write_checkpoint_record, write_txn_only_record, LogRecordView, CHECKPOINT, COMMIT, ROLLBACK,
    SETINT, SETSTRING, START};
use crate::transaction::Transaction;

verus! {

/// The block a Set record's undo writes; meaningless for other records.
pub open spec fn rec_target(rec: LogRecordView) -> BlockIdView {
    match rec {
        LogRecordView::SetInt { file_name, block_num, .. } => BlockIdView {
            file_name,
            block_num: block_num as nat,
        },
        LogRecordView::SetString { file_name, block_num, .. } => BlockIdView {
            file_name,
            block_num: block_num as nat,
        },
        _ => BlockIdView { file_name: Seq::empty(), block_num: 0 },
    }
}

/// Does this record's undo write a data block? Only a Set record with a
/// nonnegative offset naming a block outside the log file does; all other
/// records, and Set records naming the log file itself, undo nothing.
pub open spec fn undo_writes(rec: LogRecordView, log: Seq<char>) -> bool {
    match rec {
        LogRecordView::SetInt { file_name, offset, .. } => file_name != log && offset >= 0,
        LogRecordView::SetString { file_name, offset, .. } => file_name != log && offset >= 0,
        _ => false,
    }
}

/// The transaction a record belongs to, as the scan sees it; a
/// `Checkpoint` carries none and counts as transaction 0.
pub open spec fn rec_txn(rec: LogRecordView) -> int {
    match rec {
        LogRecordView::Checkpoint => 0,
        LogRecordView::Start { txn } => txn,
        LogRecordView::Commit { txn } => txn,
        LogRecordView::Rollback { txn } => txn,
        LogRecordView::SetInt { txn, .. } => txn,
        LogRecordView::SetString { txn, .. } => txn,
    }
}

/// The finished set extended by what this record reports.
pub open spec fn scan_finish(finished: Set<int>, rec: LogRecordView) -> Set<int> {
    match rec {
        LogRecordView::Commit { txn } => finished.insert(txn),
        LogRecordView::Rollback { txn } => finished.insert(txn),
        _ => finished,
    }
}

/// One record's undo applied to one block's bytes: a Set record naming this
/// block splices its logged pre-image at its offset when it fits, and
/// everything else leaves the bytes alone.
pub open spec fn undo_apply(b: Seq<u8>, rec: LogRecordView, c: BlockIdView) -> Seq<u8> {
    match rec {
        LogRecordView::SetInt { file_name, block_num, offset, value, .. } => if file_name
            == c.file_name && block_num == c.block_num as int && 0 <= offset && offset + 4
            <= b.len() {
            splice(b, offset, be_of_i32(value as i32))
        } else {
            b
        },
        LogRecordView::SetString { file_name, block_num, offset, value, .. } => if file_name
            == c.file_name && block_num == c.block_num as int && 0 <= offset && offset + 4
            + vstd::utf8::encode_utf8(value).len() <= b.len() {
            splice(b, offset, len_prefixed(vstd::utf8::encode_utf8(value)))
        } else {
            b
        },
        _ => b,
    }
}

/// Implements commit, rollback and crash recovery for one transaction by
/// replaying the log.
pub struct RecoveryManager {
    pub transaction_n: i32,
}

impl RecoveryManager {
    pub fn new(tx_n: i32) -> (r: RecoveryManager)
        ensures
            r.transaction_n == tx_n,
    {
        RecoveryManager { transaction_n: tx_n }
    }

    /// Commits the transaction: flushes every buffer it modified (each under
    /// the WAL-before-data rule), appends a `Commit` record, and flushes the
    /// log, so the commit record is durable before this returns.
    pub fn commit(&self, db: &mut Database)
        requires
            old(db).wf(),
            old(db).lm.latest_lsn < i32::MAX,
        ensures
            final(db).wf(),
            final(db).next_txn == old(db).next_txn,
            final(db).lm.log_file == old(db).lm.log_file,
            final(db).lm.latest_lsn == old(db).lm.latest_lsn + 1,
            final(db).lm.last_lsn == final(db).lm.latest_lsn,
            final(db).lm.all_records(final(db).fm) == seq![
                encode_txn_only(COMMIT, self.transaction_n),
            ] + old(db).lm.all_records(old(db).fm),
            durable_records(final(db).fm, final(db).lm.log_file@) == final(db).lm.all_records(
                final(db).fm,
            ),
            final(db).fm.spec_block_size() == old(db).fm.spec_block_size(),
            forall|n: Seq<char>| final(db).fm.has_file(n) == old(db).fm.has_file(n),
            forall|n: Seq<char>|
                n != old(db).lm.log_file@ ==> #[trigger] final(db).fm.file_blocks(n).len() == old(db).fm.file_blocks(n).len(),
            final(db).bm.buffer_pool@.len() == old(db).bm.buffer_pool@.len(),
            final(db).bm.buff_n_available == old(db).bm.buff_n_available,
            forall|j: int|
                0 <= j < old(db).bm.buffer_pool@.len() ==> #[trigger] final(db).bm.buffer_pool@[j]
                    == if old(db).bm.buffer_pool@[j].txn == Some(self.transaction_n) {
                    crate::buffermanager::Buffer {
                        txn: None,
                        contents: old(db).bm.buffer_pool@[j].contents,
                        block_id: old(db).bm.buffer_pool@[j].block_id,
                        pins: old(db).bm.buffer_pool@[j].pins,
                        lsn: old(db).bm.buffer_pool@[j].lsn,
                    }
                } else {
                    old(db).bm.buffer_pool@[j]
                },
            forall|j: int|
                0 <= j < old(db).bm.buffer_pool@.len() && old(db).bm.buffer_pool@[j].txn == Some(
                    self.transaction_n,
                ) ==> ((#[trigger] old(db).bm.buffer_pool@[j].block_id) matches Some(b) ==> final(db).fm.file_blocks(b@.file_name)[b@.block_num as int] == old(db).bm.buffer_pool@[j].contents@),
            forall|n: Seq<char>, k: int|
                n != old(db).lm.log_file@ && !pool_writes(
                    old(db).bm.buffer_pool@,
                    self.transaction_n,
                    n,
                    k,
                ) && 0 <= k < old(db).fm.file_blocks(n).len() ==> #[trigger] final(db).fm.file_blocks(n)[k] == old(db).fm.file_blocks(n)[k],
    {
        db.bm.flush_all_buffers(&mut db.fm, &mut db.lm, self.transaction_n);
        let ghost db1 = *db;
        let lsn = CommitLogRecord::write_to_log_record(&mut db.lm, &mut db.fm, self.transaction_n);
        proof {
            assert forall|j: int|
                0 <= j < db.bm.buffer_pool@.len() implies (#[trigger] db.bm.buffer_pool@[j]).buf_wf(
                db.fm,
                db.lm,
            ) by {
                assert(db.bm.buffer_pool@[j].buf_wf(db1.fm, db1.lm));
            }
        }
        let ghost db2 = *db;
        db.lm.flush(&mut db.fm);
        proof {
            assert forall|j: int|
                0 <= j < db.bm.buffer_pool@.len() implies (#[trigger] db.bm.buffer_pool@[j]).buf_wf(
                db.fm,
                db.lm,
            ) by {
                assert(db.bm.buffer_pool@[j].buf_wf(db2.fm, db2.lm));
            }
        }
    }

    /// Logs the pre-image of a 4-byte integer write: reads the CURRENT value
    /// at `offset` of the pooled buffer and appends a `SetInt` undo record
    /// holding it, returning the record's LSN. Fails with `OutOfRange`, and
    /// leaves everything unchanged, when the offset lies outside the block,
    /// the block number does not fit the wire format, or the record would
    /// not fit in one log block.
    pub fn set_int(&self, db: &mut Database, slot: usize, offset: i32) -> (r: Result<i32, DbError>)
        requires
            old(db).wf(),
            old(db).lm.latest_lsn < i32::MAX,
            slot < old(db).bm.buffer_pool@.len(),
            old(db).bm.buffer_pool@[slot as int].block_id is Some,
            0 <= offset,
        ensures
            final(db).wf(),
            final(db).bm == old(db).bm,
            final(db).next_txn == old(db).next_txn,
            final(db).lm.log_file == old(db).lm.log_file,
            final(db).fm.spec_block_size() == old(db).fm.spec_block_size(),
            final(db).fm.is_new() == old(db).fm.is_new(),
            forall|n: Seq<char>|
                n != old(db).lm.log_file@ ==> final(db).fm.has_file(n) == old(db).fm.has_file(n)
                    && final(db).fm.file_blocks(n) == old(db).fm.file_blocks(n),
            ({
                let b = old(db).bm.buffer_pool@[slot as int].block_id->Some_0@;
                let page = old(db).bm.buffer_pool@[slot as int].contents@;
                let fits = int_in_range(page.len() as int, offset as int) && b.block_num
                    <= i32::MAX && 32 + vstd::utf8::encode_utf8(b.file_name).len() <= old(db).fm.spec_block_size();
                &&& (r is Ok <==> fits)
                &&& match r {
                    Ok(lsn) => final(db).lm.latest_lsn == old(db).lm.latest_lsn + 1 && lsn
                        == final(db).lm.latest_lsn && final(db).lm.all_records(final(db).fm)
                        == seq![
                        encode_set_int(
                            self.transaction_n,
                            b.file_name,
                            b.block_num as i32,
                            offset,
                            page_i32_at(page, offset as int),
                        ),
                    ] + old(db).lm.all_records(old(db).fm),
                    Err(e) => e == DbError::OutOfRange && final(db).lm == old(db).lm && final(db).fm
                        == old(db).fm,
                }
            }),
    {
        let old_val = match db.bm.buffer_pool[slot].get_int(offset as usize) {
            Some(v) => v,
            None => {
                return Err(DbError::OutOfRange);
            },
        };
        let blid = match db.bm.buffer_pool[slot].block_id() {
            Some(b) => b.clone(),
            None => {
                proof {
                    assert(false);
                }
                return Err(DbError::OutOfRange);
            },
        };
        if blid.block_num() > (i32::MAX as usize) {
            return Err(DbError::OutOfRange);
        }
        let fname = blid.file_name();
        let fs = fname.as_str().as_bytes();
        let fname_len = fs.len();
        proof {
            db.fm.lemma_inv_facts();
            assert(fs@ == vstd::utf8::encode_utf8(blid@.file_name));
        }
        let bs = db.fm.block_size();
        if fname_len >= bs || 32 + (fname_len as u64) > (bs as u64) {
            return Err(DbError::OutOfRange);
        }
        proof {
            assert(fname_len == vstd::utf8::encode_utf8(blid@.file_name).len());
            assert(encode_set_int(
                self.transaction_n,
                blid@.file_name,
                blid@.block_num as i32,
                offset,
                old_val,
            ).len() == 24 + vstd::utf8::encode_utf8(blid@.file_name).len());
        }
        let ghost lm0 = db.lm;
        let ghost fm0 = db.fm;
        let lsn = SetIntLogRecord::write_to_log_record(
            &mut db.lm,
            &mut db.fm,
            self.transaction_n,
            &blid,
            offset,
            old_val,
        );
        proof {
            assert forall|j: int|
                0 <= j < db.bm.buffer_pool@.len() implies (#[trigger] db.bm.buffer_pool@[j]).buf_wf(
                db.fm,
                db.lm,
            ) by {
                assert(db.bm.buffer_pool@[j].buf_wf(fm0, lm0));
            }
        }
        Ok(lsn)
    }

    /// Logs the pre-image of a string write, as `set_int` logs an integer's:
    /// reads the CURRENT length-prefixed string at `offset` and appends a
    /// `SetString` undo record holding it. Bytes that are not valid UTF-8
    /// also report `OutOfRange`.
    pub fn set_string(&self, db: &mut Database, slot: usize, offset: i32) -> (r: Result<
        i32,
        DbError,
    >)
        requires
            old(db).wf(),
            old(db).lm.latest_lsn < i32::MAX,
            slot < old(db).bm.buffer_pool@.len(),
            old(db).bm.buffer_pool@[slot as int].block_id is Some,
            0 <= offset,
        ensures
            final(db).wf(),
            final(db).bm == old(db).bm,
            final(db).next_txn == old(db).next_txn,
            final(db).lm.log_file == old(db).lm.log_file,
            final(db).fm.spec_block_size() == old(db).fm.spec_block_size(),
            final(db).fm.is_new() == old(db).fm.is_new(),
            forall|n: Seq<char>|
                n != old(db).lm.log_file@ ==> final(db).fm.has_file(n) == old(db).fm.has_file(n)
                    && final(db).fm.file_blocks(n) == old(db).fm.file_blocks(n),
            ({
                let b = old(db).bm.buffer_pool@[slot as int].block_id->Some_0@;
                let page = old(db).bm.buffer_pool@[slot as int].contents@;
                let fits = bytes_readable(page, offset as int) && vstd::utf8::valid_utf8(
                    page_bytes_at(page, offset as int),
                ) && b.block_num <= i32::MAX && 36 + vstd::utf8::encode_utf8(b.file_name).len()
                    + page_bytes_at(page, offset as int).len() <= old(db).fm.spec_block_size();
                &&& (r is Ok <==> fits)
                &&& match r {
                    Ok(lsn) => final(db).lm.latest_lsn == old(db).lm.latest_lsn + 1 && lsn
                        == final(db).lm.latest_lsn && final(db).lm.all_records(final(db).fm)
                        == seq![
                        encode_set_string(
                            self.transaction_n,
                            b.file_name,
                            b.block_num as i32,
                            offset,
                            vstd::utf8::decode_utf8(page_bytes_at(page, offset as int)),
                        ),
                    ] + old(db).lm.all_records(old(db).fm),
                    Err(e) => e == DbError::OutOfRange && final(db).lm == old(db).lm && final(db).fm
                        == old(db).fm,
                }
            }),
    {
        let old_val = match db.bm.buffer_pool[slot].get_string(offset as usize) {
            Some(v) => v,
            None => {
                return Err(DbError::OutOfRange);
            },
        };
        proof {
            vstd::utf8::decode_utf8_encode_utf8(
                page_bytes_at(db.bm.buffer_pool@[slot as int].contents@, offset as int),
            );
        }
        let blid = match db.bm.buffer_pool[slot].block_id() {
            Some(b) => b.clone(),
            None => {
                proof {
                    assert(false);
                }
                return Err(DbError::OutOfRange);
            },
        };
        if blid.block_num() > (i32::MAX as usize) {
            return Err(DbError::OutOfRange);
        }
        let fname = blid.file_name();
        let fs = fname.as_str().as_bytes();
        let fname_len = fs.len();
        let vs = old_val.as_str().as_bytes();
        let val_len = vs.len();
        proof {
            db.fm.lemma_inv_facts();
            assert(fs@ == vstd::utf8::encode_utf8(blid@.file_name));
            assert(vs@ == vstd::utf8::encode_utf8(old_val@));
        }
        let bs = db.fm.block_size();
        if fname_len >= bs || val_len >= bs || 36 + (fname_len as u64) + (val_len as u64) > (
        bs as u64) {
            return Err(DbError::OutOfRange);
        }
        proof {
            assert(fname_len == vstd::utf8::encode_utf8(blid@.file_name).len());
            assert(val_len == vstd::utf8::encode_utf8(old_val@).len());
            assert(crate::filemanager::len_prefixed(vstd::utf8::encode_utf8(blid@.file_name)).len()
                == 4 + fname_len);
            assert(crate::filemanager::len_prefixed(vstd::utf8::encode_utf8(old_val@)).len() == 4
                + val_len);
            assert(crate::codec::be_of_i32(crate::logrecord::SETSTRING).len() == 4);
            let p1 = crate::codec::be_of_i32(crate::logrecord::SETSTRING);
            let p2 = crate::codec::be_of_i32(self.transaction_n);
            let p3 = crate::filemanager::len_prefixed(vstd::utf8::encode_utf8(blid@.file_name));
            let p4 = crate::codec::be_of_i32(blid@.block_num as i32);
            let p5 = crate::codec::be_of_i32(offset);
            let p6 = crate::filemanager::len_prefixed(vstd::utf8::encode_utf8(old_val@));
            assert(encode_set_string(
                self.transaction_n,
                blid@.file_name,
                blid@.block_num as i32,
                offset,
                old_val@,
            ) == p1 + p2 + p3 + p4 + p5 + p6);
            assert((p1 + p2 + p3 + p4 + p5 + p6).len() == p1.len() + p2.len() + p3.len()
                + p4.len() + p5.len() + p6.len());
        }
        let ghost lm0 = db.lm;
        let ghost fm0 = db.fm;
        let lsn = SetStringLogRecord::write_to_log_record(
            &mut db.lm,
            &mut db.fm,
            self.transaction_n,
            &blid,
            offset,
            old_val,
        );
        proof {
            assert forall|j: int|
                0 <= j < db.bm.buffer_pool@.len() implies (#[trigger] db.bm.buffer_pool@[j]).buf_wf(
                db.fm,
                db.lm,
            ) by {
                assert(db.bm.buffer_pool@[j].buf_wf(fm0, lm0));
            }
        }
        Ok(lsn)
    }
}


/// Does the list contain the transaction id?
fn contains_txn(finished: &Vec<i32>, t: i32) -> (r: bool)
    ensures
        r == exists|j: int| 0 <= j < finished@.len() && finished@[j] == t,
{
    let mut i: usize = 0;
    while i < finished.len()
        invariant
            i <= finished@.len(),
            forall|j: int| 0 <= j < i ==> finished@[j] != t,
        decreases finished@.len() - i,
    {
        if finished[i] == t {
            return true;
        }
        i = i + 1;
    }
    false
}


/// What crash recovery's backward scan leaves in block `c`, starting from
/// bytes `b`: records are visited newest first, `Commit` and `Rollback`
/// records extend the finished set, each `Set` record of an unfinished
/// transaction has its undo applied, and the scan stops at the first
/// `Checkpoint` or unreadable record.
pub open spec fn scan_undo(records: Seq<Seq<u8>>, finished: Set<int>, c: BlockIdView, b: Seq<u8>) -> Seq<u8>
    decreases records.len(),
{
    if records.len() == 0 {
        b
    } else {
        match decode_record(records[0]) {
            Option::None => b,
            Option::Some(rec) => match rec {
                LogRecordView::Checkpoint => b,
                LogRecordView::SetInt { txn, .. } => if finished.contains(txn) {
                    scan_undo(records.drop_first(), finished, c, b)
                } else {
                    scan_undo(records.drop_first(), finished, c, undo_apply(b, rec, c))
                },
                LogRecordView::SetString { txn, .. } => if finished.contains(txn) {
                    scan_undo(records.drop_first(), finished, c, b)
                } else {
                    scan_undo(records.drop_first(), finished, c, undo_apply(b, rec, c))
                },
                _ => scan_undo(records.drop_first(), scan_finish(finished, rec), c, b),
            },
        }
    }
}

/// Can every undo the recovery scan will attempt be applied on a store
/// whose files look like `fm`'s? Each unfinished `Set` record must name an
/// existing block outside the log file with a pre-image that fits it.
pub open spec fn scan_undo_ok(records: Seq<Seq<u8>>, finished: Set<int>, fm: BlockStore, log: Seq<char>) -> bool
    decreases records.len(),
{
    if records.len() == 0 {
        true
    } else {
        match decode_record(records[0]) {
            Option::None => true,
            Option::Some(rec) => match rec {
                LogRecordView::Checkpoint => true,
                LogRecordView::SetInt { txn, file_name, block_num, offset, .. } => (finished.contains(txn) || file_name == log || (fm.has_file(file_name) && block_num
                    < fm.file_blocks(file_name).len() && offset + 4 <= fm.spec_block_size()))
                    && scan_undo_ok(records.drop_first(), finished, fm, log),
                LogRecordView::SetString { txn, file_name, block_num, offset, value, .. } => (
                finished.contains(txn) || file_name == log || (fm.has_file(file_name) && block_num
                    < fm.file_blocks(file_name).len() && offset + 4
                    + vstd::utf8::encode_utf8(value).len() <= fm.spec_block_size()))
                    && scan_undo_ok(records.drop_first(), finished, fm, log),
                _ => scan_undo_ok(records.drop_first(), scan_finish(finished, rec), fm, log),
            },
        }
    }
}

/// What rolling transaction `txn` back leaves in block `c`: the scan undoes
/// this transaction's `Set` records newest first and stops at the
/// transaction's own `Start` record, at an unreadable record, or at the
/// log's beginning; everything of other transactions is passed over.
pub open spec fn scan_rollback(records: Seq<Seq<u8>>, txn: int, c: BlockIdView, b: Seq<u8>) -> Seq<u8>
    decreases records.len(),
{
    if records.len() == 0 {
        b
    } else {
        match decode_record(records[0]) {
            Option::None => b,
            Option::Some(rec) => if rec_txn(rec) == txn {
                if rec is Start {
                    b
                } else {
                    match rec {
                        LogRecordView::SetInt { .. } => scan_rollback(
                            records.drop_first(),
                            txn,
                            c,
                            undo_apply(b, rec, c),
                        ),
                        LogRecordView::SetString { .. } => scan_rollback(
                            records.drop_first(),
                            txn,
                            c,
                            undo_apply(b, rec, c),
                        ),
                        _ => scan_rollback(records.drop_first(), txn, c, b),
                    }
                }
            } else {
                scan_rollback(records.drop_first(), txn, c, b)
            },
        }
    }
}

impl RecoveryManager {
    /// Rolls the transaction back: scans the log newest-first, undoing each
    /// of this transaction's records until its `Start` record, then flushes
    /// the affected buffers and appends a durable `Rollback` record as the
    /// closing record. Recovery treats `Commit` and `Rollback` alike as
    /// finishing the transaction; the `Rollback` tag keeps the two
    /// distinguishable in the log.
    pub fn rollback(&self, tx: &mut Transaction, db: &mut Database) -> (r: Result<(), DbError>)
        requires
            old(tx).wf(*old(db)),
            old(db).wf(),
            old(db).lm.latest_lsn < i32::MAX,
            old(db).unpinned_agree(),
        ensures
            final(db).wf(),
            final(tx).wf(*final(db)),
            *final(tx) == *old(tx),
            final(db).next_txn == old(db).next_txn,
            final(db).lm.log_file == old(db).lm.log_file,
            final(db).fm.spec_block_size() == old(db).fm.spec_block_size(),
            forall|n: Seq<char>| final(db).fm.has_file(n) == old(db).fm.has_file(n),
            final(db).bm.buffer_pool@.len() == old(db).bm.buffer_pool@.len(),
            forall|n: Seq<char>|
                n != old(db).lm.log_file@ ==> #[trigger] final(db).fm.file_blocks(n).len() == old(db).fm.file_blocks(n).len(),
            r is Ok ==> final(db).lm.latest_lsn == old(db).lm.latest_lsn + 1 && final(db).lm.last_lsn
                == final(db).lm.latest_lsn && final(db).lm.all_records(final(db).fm) == seq![
                encode_txn_only(ROLLBACK, self.transaction_n),
            ] + old(db).lm.all_records(old(db).fm) && durable_records(
                final(db).fm,
                final(db).lm.log_file@,
            ) == final(db).lm.all_records(final(db).fm),
            r is Ok ==> forall|c: BlockIdView|
                c.file_name != old(db).lm.log_file@ && c.block_num < old(db).fm.file_blocks(
                    c.file_name,
                ).len() ==> #[trigger] final(db).cached_block(c) == scan_rollback(
                    old(db).lm.all_records(old(db).fm),
                    self.transaction_n as int,
                    c,
                    old(db).cached_block(c),
                ),
    {
        let ghost all0 = old(db).lm.all_records(old(db).fm);
        let ghost log = old(db).lm.log_file@;
        let mut it = db.lm.iterator(&mut db.fm);
        proof {
            assert forall|c: BlockIdView|
                c.file_name != log implies #[trigger] db.cached_block(c) == old(db).cached_block(
                c,
            ) by {
                crate::buffermanager::lemma_find_block(db.bm.buffer_pool@, c);
                if crate::buffermanager::find_block(db.bm.buffer_pool@, c) < 0 {
                    assert(db.fm.file_blocks(c.file_name) == old(db).fm.file_blocks(c.file_name));
                }
            }
        }
        loop
            invariant_except_break
                it.wf(db.fm),
                it.block_id@.file_name == log,
                forall|c: BlockIdView|
                    c.file_name != log && c.block_num < old(db).fm.file_blocks(c.file_name).len()
                        ==> #[trigger] scan_rollback(
                        it.remaining(db.fm),
                        self.transaction_n as int,
                        c,
                        db.cached_block(c),
                    ) == scan_rollback(all0, self.transaction_n as int, c, old(db).cached_block(c)),
            invariant
                tx.wf(*db),
                *tx == *old(tx),
                db.wf(),
                db.unpinned_agree(),
                db.next_txn == old(db).next_txn,
                db.lm.log_file == old(db).lm.log_file,
                db.lm.log_file@ == log,
                db.lm.latest_lsn == old(db).lm.latest_lsn,
                db.lm.last_lsn == db.lm.latest_lsn,
                db.lm.latest_lsn < i32::MAX,
                db.lm.all_records(db.fm) == all0,
                db.fm.spec_block_size() == old(db).fm.spec_block_size(),
                forall|n: Seq<char>| db.fm.has_file(n) == old(db).fm.has_file(n),
                forall|n: Seq<char>|
                    #[trigger] db.fm.file_blocks(n).len() == old(db).fm.file_blocks(n).len(),
                db.bm.buffer_pool@.len() == old(db).bm.buffer_pool@.len(),
            ensures
                tx.wf(*db),
                *tx == *old(tx),
                db.wf(),
                db.unpinned_agree(),
                db.next_txn == old(db).next_txn,
                db.lm.log_file == old(db).lm.log_file,
                db.lm.latest_lsn == old(db).lm.latest_lsn,
                db.lm.latest_lsn < i32::MAX,
                db.lm.all_records(db.fm) == all0,
                db.fm.spec_block_size() == old(db).fm.spec_block_size(),
                forall|n: Seq<char>| db.fm.has_file(n) == old(db).fm.has_file(n),
                forall|n: Seq<char>|
                    #[trigger] db.fm.file_blocks(n).len() == old(db).fm.file_blocks(n).len(),
                db.bm.buffer_pool@.len() == old(db).bm.buffer_pool@.len(),
                forall|c: BlockIdView|
                    c.file_name != log && c.block_num < old(db).fm.file_blocks(c.file_name).len()
                        ==> #[trigger] db.cached_block(c) == scan_rollback(
                        all0,
                        self.transaction_n as int,
                        c,
                        old(db).cached_block(c),
                    ),
            decreases it.remaining(db.fm).len(),
        {
            let ghost rem0 = it.remaining(db.fm);
            let ghost db_top = *db;
            let ghost txni = self.transaction_n as int;
            let nxt = it.next(&mut db.fm);
            let bytes = match nxt {
                None => {
                    proof {
                        assert forall|c: BlockIdView|
                            c.file_name != log && c.block_num < old(db).fm.file_blocks(
                                c.file_name,
                            ).len() implies #[trigger] db.cached_block(c) == scan_rollback(
                            all0,
                            txni,
                            c,
                            old(db).cached_block(c),
                        ) by {
                            assert(db.bm == db_top.bm);
                            assert(db.fm.file_blocks(c.file_name) == db_top.fm.file_blocks(
                                c.file_name,
                            ));
                            assert(db.cached_block(c) == db_top.cached_block(c));
                            assert(scan_rollback(rem0, txni, c, db_top.cached_block(c))
                                == scan_rollback(all0, txni, c, old(db).cached_block(c)));
                            assert(rem0.len() == 0);
                            assert(scan_rollback(rem0, txni, c, db_top.cached_block(c))
                                == db_top.cached_block(c));
                        }
                    }
                    break ;
                },
                Some(b) => b,
            };
            proof {
                assert(bytes@ == rem0[0]);
            }
            let rec = match LogRecordFactory::create_log_record(bytes) {
                None => {
                    proof {
                        assert(decode_record(rem0[0]) is None);
                        assert forall|c: BlockIdView|
                            c.file_name != log && c.block_num < old(db).fm.file_blocks(
                                c.file_name,
                            ).len() implies #[trigger] db.cached_block(c) == scan_rollback(
                            all0,
                            txni,
                            c,
                            old(db).cached_block(c),
                        ) by {
                            assert(db.bm == db_top.bm);
                            assert(db.fm.file_blocks(c.file_name) == db_top.fm.file_blocks(
                                c.file_name,
                            ));
                            assert(db.cached_block(c) == db_top.cached_block(c));
                            assert(scan_rollback(rem0, txni, c, db_top.cached_block(c))
                                == scan_rollback(all0, txni, c, old(db).cached_block(c)));
                            assert(scan_rollback(rem0, txni, c, db_top.cached_block(c))
                                == db_top.cached_block(c));
                        }
                    }
                    break ;
                },
                Some(rec) => rec,
            };
            let rec_tx = rec.tx_number();
            proof {
                assert(decode_record(rem0[0]) == Some(rec@));
                assert(rec_txn(rec@) == rec_tx);
            }
            if rec_tx == self.transaction_n {
                if rec.operation() == START {
                    proof {
                        assert(rec@ is Start);
                        assert forall|c: BlockIdView|
                            c.file_name != log && c.block_num < old(db).fm.file_blocks(
                                c.file_name,
                            ).len() implies #[trigger] db.cached_block(c) == scan_rollback(
                            all0,
                            txni,
                            c,
                            old(db).cached_block(c),
                        ) by {
                            assert(db.bm == db_top.bm);
                            assert(db.fm.file_blocks(c.file_name) == db_top.fm.file_blocks(
                                c.file_name,
                            ));
                            assert(db.cached_block(c) == db_top.cached_block(c));
                            assert(scan_rollback(rem0, txni, c, db_top.cached_block(c))
                                == scan_rollback(all0, txni, c, old(db).cached_block(c)));
                            assert(scan_rollback(rem0, txni, c, db_top.cached_block(c))
                                == db_top.cached_block(c));
                        }
                    }
                    break ;
                }
                let ghost db_pre = *db;
                match tx.apply_undo(db, &rec) {
                    Err(e) => {
                        return Err(e);
                    },
                    Ok(()) => (),
                }
                proof {
                    assert(db_pre.lm.log_file@ == log);
                    assert(db.fm.file_blocks(log) == db_pre.fm.file_blocks(log)) by {
                        if undo_writes(rec@, log) {
                            assert(rec_target(rec@).file_name != log);
                        } else {
                            assert(*db == db_pre);
                        }
                    }
                    assert(it.wf(db.fm));
                    assert(it.remaining(db.fm) == it.remaining(db_pre.fm));
                    assert forall|c: BlockIdView|
                        c.file_name != log && c.block_num < old(db).fm.file_blocks(
                            c.file_name,
                        ).len() implies #[trigger] scan_rollback(
                        it.remaining(db.fm),
                        txni,
                        c,
                        db.cached_block(c),
                    ) == scan_rollback(all0, txni, c, old(db).cached_block(c)) by {
                        assert(db_pre.bm == db_top.bm);
                        assert(db_pre.fm.file_blocks(c.file_name) == db_top.fm.file_blocks(
                            c.file_name,
                        ));
                        assert(db_pre.cached_block(c) == db_top.cached_block(c));
                        assert(scan_rollback(rem0, txni, c, db_top.cached_block(c))
                            == scan_rollback(all0, txni, c, old(db).cached_block(c)));
                        assert(c.block_num < db_pre.fm.file_blocks(c.file_name).len());
                        if undo_writes(rec@, log) {
                            assert(db.cached_block(c) == undo_apply(
                                db_pre.cached_block(c),
                                rec@,
                                c,
                            ));
                        } else {
                            assert(*db == db_pre);
                            assert(undo_apply(db_pre.cached_block(c), rec@, c)
                                == db_pre.cached_block(c)) by {
                                match rec@ {
                                    LogRecordView::SetInt { file_name, offset, .. } => {
                                        assert(file_name == log || offset < 0);
                                    },
                                    LogRecordView::SetString { file_name, offset, .. } => {
                                        assert(file_name == log || offset < 0);
                                    },
                                    _ => {},
                                }
                            }
                        }
                        match rec@ {
                            LogRecordView::SetInt { .. } => {
                                assert(scan_rollback(rem0, txni, c, db_pre.cached_block(c))
                                    == scan_rollback(
                                    rem0.drop_first(),
                                    txni,
                                    c,
                                    undo_apply(db_pre.cached_block(c), rec@, c),
                                ));
                            },
                            LogRecordView::SetString { .. } => {
                                assert(scan_rollback(rem0, txni, c, db_pre.cached_block(c))
                                    == scan_rollback(
                                    rem0.drop_first(),
                                    txni,
                                    c,
                                    undo_apply(db_pre.cached_block(c), rec@, c),
                                ));
                            },
                            _ => {
                                assert(scan_rollback(rem0, txni, c, db_pre.cached_block(c))
                                    == scan_rollback(
                                    rem0.drop_first(),
                                    txni,
                                    c,
                                    db_pre.cached_block(c),
                                ));
                                assert(undo_apply(db_pre.cached_block(c), rec@, c)
                                    == db_pre.cached_block(c));
                            },
                        }
                        assert(it.block_id@.file_name == log);
                        assert(db.fm.file_blocks(log) == db_pre.fm.file_blocks(log));
                        assert(it.remaining(db.fm) == it.remaining(db_pre.fm));
                        assert(it.remaining(db_pre.fm) == rem0.drop_first());
                    }
                }
            } else {
                proof {
                    assert forall|c: BlockIdView|
                        c.file_name != log && c.block_num < old(db).fm.file_blocks(
                            c.file_name,
                        ).len() implies #[trigger] scan_rollback(
                        it.remaining(db.fm),
                        txni,
                        c,
                        db.cached_block(c),
                    ) == scan_rollback(all0, txni, c, old(db).cached_block(c)) by {
                        assert(db.bm == db_top.bm);
                        assert(db.fm.file_blocks(c.file_name) == db_top.fm.file_blocks(
                            c.file_name,
                        ));
                        assert(db.cached_block(c) == db_top.cached_block(c));
                        assert(scan_rollback(rem0, txni, c, db_top.cached_block(c))
                            == scan_rollback(all0, txni, c, old(db).cached_block(c)));
                        assert(rec_txn(rec@) != txni);
                        assert(scan_rollback(rem0, txni, c, db_top.cached_block(c))
                            == scan_rollback(
                            rem0.drop_first(),
                            txni,
                            c,
                            db_top.cached_block(c),
                        ));
                        assert(it.remaining(db.fm) == rem0.drop_first());
                    }
                }
            }
        }
        let ghost db_scan = *db;
        let res = self.finish_with_record(tx, db, ROLLBACK);
        proof {
            assert forall|c: BlockIdView|
                c.file_name != log && c.block_num < old(db).fm.file_blocks(c.file_name).len()
                implies #[trigger] db.cached_block(c) == scan_rollback(
                all0,
                self.transaction_n as int,
                c,
                old(db).cached_block(c),
            ) by {
                assert(db.cached_block(c) == db_scan.cached_block(c));
            }
        }
        res
    }

    /// Flushes this transaction's buffers, appends the closing record with
    /// the given tag, and makes the log durable.
    fn finish_with_record(&self, tx: &Transaction, db: &mut Database, op: i32) -> (r: Result<
        (),
        DbError,
    >)
        requires
            tx.wf(*old(db)),
            old(db).wf(),
            old(db).lm.latest_lsn < i32::MAX,
            op == ROLLBACK || op == START || op == COMMIT,
        ensures
            final(db).wf(),
            tx.wf(*final(db)),
            final(db).next_txn == old(db).next_txn,
            final(db).lm.log_file == old(db).lm.log_file,
            final(db).fm.spec_block_size() == old(db).fm.spec_block_size(),
            forall|n: Seq<char>| final(db).fm.has_file(n) == old(db).fm.has_file(n),
            final(db).bm.buffer_pool@.len() == old(db).bm.buffer_pool@.len(),
            r is Ok,
            final(db).lm.latest_lsn == old(db).lm.latest_lsn + 1,
            final(db).lm.last_lsn == final(db).lm.latest_lsn,
            final(db).lm.all_records(final(db).fm) == seq![encode_txn_only(op, self.transaction_n)]
                + old(db).lm.all_records(old(db).fm),
            durable_records(final(db).fm, final(db).lm.log_file@) == final(db).lm.all_records(
                final(db).fm,
            ),
            forall|c: BlockIdView|
                c.file_name != old(db).lm.log_file@ && c.block_num < old(db).fm.file_blocks(
                    c.file_name,
                ).len() ==> #[trigger] final(db).cached_block(c) == old(db).cached_block(c),
            forall|n: Seq<char>|
                n != old(db).lm.log_file@ ==> #[trigger] final(db).fm.file_blocks(n).len() == old(db).fm.file_blocks(n).len(),
    {
        let ghost pool0 = db.bm.buffer_pool@;
        db.bm.flush_all_buffers(&mut db.fm, &mut db.lm, self.transaction_n);
        proof {
            assert forall|c: BlockIdView|
                c.file_name != old(db).lm.log_file@ && c.block_num < old(db).fm.file_blocks(
                    c.file_name,
                ).len() implies #[trigger] db.cached_block(c) == old(db).cached_block(c) by {
                crate::buffermanager::lemma_find_block_same_ids(pool0, db.bm.buffer_pool@, c);
                crate::buffermanager::lemma_find_block(pool0, c);
                let f0 = crate::buffermanager::find_block(pool0, c);
                if f0 >= 0 {
                    assert(db.bm.buffer_pool@[f0].contents == pool0[f0].contents);
                } else {
                    assert(!crate::buffermanager::pool_writes(
                        pool0,
                        self.transaction_n,
                        c.file_name,
                        c.block_num as int,
                    )) by {
                        crate::buffermanager::lemma_find_block(pool0, c);
                    }
                    assert(db.fm.file_blocks(c.file_name)[c.block_num as int] == old(db).fm.file_blocks(c.file_name)[c.block_num as int]);
                }
            }
        }
        let ghost db1 = *db;
        write_txn_only_record(&mut db.lm, &mut db.fm, op, self.transaction_n);
        proof {
            assert forall|j: int|
                0 <= j < db.bm.buffer_pool@.len() implies (#[trigger] db.bm.buffer_pool@[j]).buf_wf(
                db.fm,
                db.lm,
            ) by {
                assert(db.bm.buffer_pool@[j].buf_wf(db1.fm, db1.lm));
            }
        }
        let ghost db2 = *db;
        db.lm.flush(&mut db.fm);
        proof {
            assert forall|j: int|
                0 <= j < db.bm.buffer_pool@.len() implies (#[trigger] db.bm.buffer_pool@[j]).buf_wf(
                db.fm,
                db.lm,
            ) by {
                assert(db.bm.buffer_pool@[j].buf_wf(db2.fm, db2.lm));
            }
            assert forall|i: int|
                0 <= i < tx.buffer_list.entries@.len() implies (
            #[trigger] tx.buffer_list.entries@[i]).1 < db.bm.buffer_pool@.len() && (
            db.bm.buffer_pool@[tx.buffer_list.entries@[i].1 as int].block_id matches Some(bb)
                && bb@ == tx.buffer_list.entries@[i].0@) && db.bm.buffer_pool@[tx.buffer_list.entries@[i].1 as int].pins
                >= 1 && tx.buffer_list.entries@[i].2 >= 1 by {
                let s2 = tx.buffer_list.entries@[i].1 as int;
                assert(old(db).bm.buffer_pool@[s2].block_id matches Some(bb) && bb@
                    == tx.buffer_list.entries@[i].0@);
            }
            assert(db.bm.buffer_pool@ == db1.bm.buffer_pool@);
            assert forall|c: BlockIdView|
                c.file_name != old(db).lm.log_file@ && c.block_num < old(db).fm.file_blocks(
                    c.file_name,
                ).len() implies #[trigger] db.cached_block(c) == db1.cached_block(c) by {
                crate::buffermanager::lemma_find_block(db1.bm.buffer_pool@, c);
                let f0 = crate::buffermanager::find_block(db1.bm.buffer_pool@, c);
                if f0 < 0 {
                    assert(db.fm.file_blocks(c.file_name) == db1.fm.file_blocks(c.file_name));
                }
            }
        }
        Ok(())
    }

    /// Flushes this transaction's buffers and appends a durable
    /// `Checkpoint` record: the durability horizon after recovery.
    fn finish_with_checkpoint(&self, tx: &Transaction, db: &mut Database) -> (r: Result<
        (),
        DbError,
    >)
        requires
            tx.wf(*old(db)),
            old(db).wf(),
            old(db).lm.latest_lsn < i32::MAX,
        ensures
            final(db).wf(),
            tx.wf(*final(db)),
            final(db).next_txn == old(db).next_txn,
            final(db).lm.log_file == old(db).lm.log_file,
            final(db).fm.spec_block_size() == old(db).fm.spec_block_size(),
            forall|n: Seq<char>| final(db).fm.has_file(n) == old(db).fm.has_file(n),
            final(db).bm.buffer_pool@.len() == old(db).bm.buffer_pool@.len(),
            r is Ok,
            final(db).lm.latest_lsn == old(db).lm.latest_lsn + 1,
            final(db).lm.last_lsn == final(db).lm.latest_lsn,
            final(db).lm.all_records(final(db).fm) == seq![encode_checkpoint()]
                + old(db).lm.all_records(old(db).fm),
            durable_records(final(db).fm, final(db).lm.log_file@) == final(db).lm.all_records(
                final(db).fm,
            ),
            forall|c: BlockIdView|
                c.file_name != old(db).lm.log_file@ && c.block_num < old(db).fm.file_blocks(
                    c.file_name,
                ).len() ==> #[trigger] final(db).cached_block(c) == old(db).cached_block(c),
            forall|n: Seq<char>|
                n != old(db).lm.log_file@ ==> #[trigger] final(db).fm.file_blocks(n).len() == old(db).fm.file_blocks(n).len(),
            (forall|j: int|
                0 <= j < old(db).bm.buffer_pool@.len()
                    ==> (#[trigger] old(db).bm.buffer_pool@[j]).txn != Some(self.transaction_n))
                ==> final(db).bm.buffer_pool@ == old(db).bm.buffer_pool@ && (forall|n: Seq<char>|
                n != old(db).lm.log_file@ ==> #[trigger] final(db).fm.file_blocks(n) == old(db).fm.file_blocks(n)),
    {
        let ghost pool0 = db.bm.buffer_pool@;
        db.bm.flush_all_buffers(&mut db.fm, &mut db.lm, self.transaction_n);
        proof {
            if forall|j: int|
                0 <= j < pool0.len() ==> (#[trigger] pool0[j]).txn != Some(self.transaction_n) {
                assert(db.bm.buffer_pool@ =~= pool0);
                assert forall|n: Seq<char>|
                    n != old(db).lm.log_file@ implies #[trigger] db.fm.file_blocks(n) == old(db).fm.file_blocks(n) by {
                    assert forall|k: int|
                        0 <= k < old(db).fm.file_blocks(n).len() implies db.fm.file_blocks(n)[k]
                        == old(db).fm.file_blocks(n)[k] by {
                        assert(!crate::buffermanager::pool_writes(
                            pool0,
                            self.transaction_n,
                            n,
                            k,
                        )) by {
                            if crate::buffermanager::pool_writes(
                                pool0,
                                self.transaction_n,
                                n,
                                k,
                            ) {
                                let i = choose|i: int|
                                    0 <= i < pool0.len() && (#[trigger] pool0[i]).txn == Some(
                                        self.transaction_n,
                                    ) && (pool0[i].block_id matches Some(b) && b@.file_name == n
                                        && b@.block_num == k);
                                assert(pool0[i].txn != Some(self.transaction_n));
                            }
                        }
                    }
                    assert(db.fm.has_file(n) == old(db).fm.has_file(n));
                    assert(db.fm.file_blocks(n).len() == old(db).fm.file_blocks(n).len());
                    assert(db.fm.file_blocks(n) =~= old(db).fm.file_blocks(n));
                }
            }
        }
        proof {
            assert forall|c: BlockIdView|
                c.file_name != old(db).lm.log_file@ && c.block_num < old(db).fm.file_blocks(
                    c.file_name,
                ).len() implies #[trigger] db.cached_block(c) == old(db).cached_block(c) by {
                crate::buffermanager::lemma_find_block_same_ids(pool0, db.bm.buffer_pool@, c);
                crate::buffermanager::lemma_find_block(pool0, c);
                let f0 = crate::buffermanager::find_block(pool0, c);
                if f0 >= 0 {
                    assert(db.bm.buffer_pool@[f0].contents == pool0[f0].contents);
                } else {
                    assert(!crate::buffermanager::pool_writes(
                        pool0,
                        self.transaction_n,
                        c.file_name,
                        c.block_num as int,
                    )) by {
                        crate::buffermanager::lemma_find_block(pool0, c);
                    }
                    assert(db.fm.file_blocks(c.file_name)[c.block_num as int] == old(db).fm.file_blocks(c.file_name)[c.block_num as int]);
                }
            }
        }
        let ghost db1 = *db;
        write_checkpoint_record(&mut db.lm, &mut db.fm);
        proof {
            assert forall|j: int|
                0 <= j < db.bm.buffer_pool@.len() implies (#[trigger] db.bm.buffer_pool@[j]).buf_wf(
                db.fm,
                db.lm,
            ) by {
                assert(db.bm.buffer_pool@[j].buf_wf(db1.fm, db1.lm));
            }
        }
        let ghost db2 = *db;
        db.lm.flush(&mut db.fm);
        proof {
            assert forall|j: int|
                0 <= j < db.bm.buffer_pool@.len() implies (#[trigger] db.bm.buffer_pool@[j]).buf_wf(
                db.fm,
                db.lm,
            ) by {
                assert(db.bm.buffer_pool@[j].buf_wf(db2.fm, db2.lm));
            }
            assert forall|i: int|
                0 <= i < tx.buffer_list.entries@.len() implies (
            #[trigger] tx.buffer_list.entries@[i]).1 < db.bm.buffer_pool@.len() && (
            db.bm.buffer_pool@[tx.buffer_list.entries@[i].1 as int].block_id matches Some(bb)
                && bb@ == tx.buffer_list.entries@[i].0@) && db.bm.buffer_pool@[tx.buffer_list.entries@[i].1 as int].pins
                >= 1 && tx.buffer_list.entries@[i].2 >= 1 by {
                let s2 = tx.buffer_list.entries@[i].1 as int;
                assert(old(db).bm.buffer_pool@[s2].block_id matches Some(bb) && bb@
                    == tx.buffer_list.entries@[i].0@);
            }
            assert(db.bm.buffer_pool@ == db1.bm.buffer_pool@);
            assert forall|c: BlockIdView|
                c.file_name != old(db).lm.log_file@ && c.block_num < old(db).fm.file_blocks(
                    c.file_name,
                ).len() implies #[trigger] db.cached_block(c) == db1.cached_block(c) by {
                crate::buffermanager::lemma_find_block(db1.bm.buffer_pool@, c);
                let f0 = crate::buffermanager::find_block(db1.bm.buffer_pool@, c);
                if f0 < 0 {
                    assert(db.fm.file_blocks(c.file_name) == db1.fm.file_blocks(c.file_name));
                }
            }
        }
        Ok(())
    }
}


impl RecoveryManager {
    /// Crash recovery: scans the durable log newest-first, collecting
    /// finished transactions from `Commit` and `Rollback` records and
    /// undoing every `Set*` record of a transaction not yet finished;
    /// stops at a `Checkpoint` record, the durability horizon. Afterwards
    /// the touched buffers are flushed and a durable `Checkpoint` record
    /// marks recovery complete: the newest record of the log is then a
    /// `Checkpoint`. Running recovery again is therefore harmless: when the
    /// newest durable record is already a `Checkpoint` and no pool buffer
    /// carries this transaction's marker, no file but the log and no buffer
    /// contents change.
    pub fn recover(&self, tx: &mut Transaction, db: &mut Database) -> (r: Result<(), DbError>)
        requires
            old(tx).wf(*old(db)),
            old(db).wf(),
            old(db).lm.latest_lsn < i32::MAX,
            old(db).unpinned_agree(),
            old(db).bm.buffer_pool@.len() >= 1,
            forall|j: int|
                0 <= j < old(db).bm.buffer_pool@.len() ==> (#[trigger] old(db).bm.buffer_pool@[j]).pins == 0,
            forall|j: int|
                0 <= j < old(db).bm.buffer_pool@.len() ==> (#[trigger] old(db).bm.buffer_pool@[j]).txn is None,
        ensures
            final(db).wf(),
            final(tx).wf(*final(db)),
            *final(tx) == *old(tx),
            final(db).next_txn == old(db).next_txn,
            final(db).lm.log_file == old(db).lm.log_file,
            final(db).fm.spec_block_size() == old(db).fm.spec_block_size(),
            forall|n: Seq<char>| final(db).fm.has_file(n) == old(db).fm.has_file(n),
            final(db).bm.buffer_pool@.len() == old(db).bm.buffer_pool@.len(),
            forall|n: Seq<char>|
                n != old(db).lm.log_file@ ==> #[trigger] final(db).fm.file_blocks(n).len() == old(db).fm.file_blocks(n).len(),
            scan_undo_ok(
                old(db).lm.all_records(old(db).fm),
                Set::empty(),
                old(db).fm,
                old(db).lm.log_file@,
            ) ==> r is Ok,
            r is Ok ==> final(db).lm.latest_lsn == old(db).lm.latest_lsn + 1 && final(db).lm.last_lsn
                == final(db).lm.latest_lsn && final(db).lm.all_records(final(db).fm) == seq![
                encode_checkpoint(),
            ] + old(db).lm.all_records(old(db).fm) && durable_records(
                final(db).fm,
                final(db).lm.log_file@,
            ) == final(db).lm.all_records(final(db).fm),
            r is Ok ==> forall|c: BlockIdView|
                c.file_name != old(db).lm.log_file@ && c.block_num < old(db).fm.file_blocks(
                    c.file_name,
                ).len() ==> #[trigger] final(db).cached_block(c) == scan_undo(
                    old(db).lm.all_records(old(db).fm),
                    Set::empty(),
                    c,
                    old(db).cached_block(c),
                ),
            ({
                let all0 = old(db).lm.all_records(old(db).fm);
                let quiet = r is Ok && all0.len() > 0 && decode_record(all0[0]) == Some(
                    LogRecordView::Checkpoint,
                );
                quiet ==> ((forall|n: Seq<char>|
                    n != old(db).lm.log_file@ ==> #[trigger] final(db).fm.file_blocks(n) == old(db).fm.file_blocks(n)) && (forall|j: int|
                    0 <= j < old(db).bm.buffer_pool@.len() ==> #[trigger] final(db).bm.buffer_pool@[j]
                        == old(db).bm.buffer_pool@[j]))
            }),
    {
        let ghost all0 = old(db).lm.all_records(old(db).fm);
        let ghost log = old(db).lm.log_file@;
        let ghost quiet0 = all0.len() > 0 && decode_record(all0[0]) == Some(
            LogRecordView::Checkpoint,
        );
        let mut finished: Vec<i32> = Vec::new();
        let ghost fset = Set::<int>::empty();
        let mut it = db.lm.iterator(&mut db.fm);
        proof {
            assert forall|c: BlockIdView|
                c.file_name != log implies #[trigger] db.cached_block(c) == old(db).cached_block(
                c,
            ) by {
                crate::buffermanager::lemma_find_block(db.bm.buffer_pool@, c);
                if crate::buffermanager::find_block(db.bm.buffer_pool@, c) < 0 {
                    assert(db.fm.file_blocks(c.file_name) == old(db).fm.file_blocks(c.file_name));
                }
            }
        }
        loop
            invariant_except_break
                it.wf(db.fm),
                it.block_id@.file_name == log,
                forall|c: BlockIdView|
                    c.file_name != log && c.block_num < old(db).fm.file_blocks(c.file_name).len()
                        ==> #[trigger] scan_undo(it.remaining(db.fm), fset, c, db.cached_block(c))
                        == scan_undo(all0, Set::empty(), c, old(db).cached_block(c)),
                scan_undo_ok(all0, Set::empty(), old(db).fm, log) ==> scan_undo_ok(
                    it.remaining(db.fm),
                    fset,
                    old(db).fm,
                    log,
                ),
                quiet0 ==> it.remaining(db.fm) == all0,
            invariant
                tx.wf(*db),
                *tx == *old(tx),
                db.wf(),
                db.unpinned_agree(),
                all0 == old(db).lm.all_records(old(db).fm),
                log == old(db).lm.log_file@,
                quiet0 == (all0.len() > 0 && decode_record(all0[0]) == Some(
                    LogRecordView::Checkpoint,
                )),
                forall|t: int|
                    #[trigger] fset.contains(t) <==> exists|j: int|
                        0 <= j < finished@.len() && finished@[j] == t,
                db.next_txn == old(db).next_txn,
                db.lm.log_file == old(db).lm.log_file,
                db.lm.log_file@ == log,
                db.lm.latest_lsn == old(db).lm.latest_lsn,
                db.lm.last_lsn == db.lm.latest_lsn,
                db.lm.latest_lsn < i32::MAX,
                db.lm.all_records(db.fm) == all0,
                db.fm.spec_block_size() == old(db).fm.spec_block_size(),
                forall|n: Seq<char>| db.fm.has_file(n) == old(db).fm.has_file(n),
                forall|n: Seq<char>|
                    #[trigger] db.fm.file_blocks(n).len() == old(db).fm.file_blocks(n).len(),
                db.bm.buffer_pool@.len() == old(db).bm.buffer_pool@.len(),
                db.bm.buffer_pool@.len() >= 1,
                forall|j: int|
                    0 <= j < db.bm.buffer_pool@.len() ==> (#[trigger] db.bm.buffer_pool@[j]).pins
                        == 0,
                forall|j: int|
                    0 <= j < db.bm.buffer_pool@.len() ==> (#[trigger] db.bm.buffer_pool@[j]).txn is None,
                quiet0 ==> db.bm == old(db).bm && (forall|n: Seq<char>|
                    n != log ==> #[trigger] db.fm.file_blocks(n) == old(db).fm.file_blocks(n)),
            ensures
                tx.wf(*db),
                *tx == *old(tx),
                db.wf(),
                db.unpinned_agree(),
                db.next_txn == old(db).next_txn,
                db.lm.log_file == old(db).lm.log_file,
                db.lm.log_file@ == log,
                db.lm.latest_lsn == old(db).lm.latest_lsn,
                db.lm.last_lsn == db.lm.latest_lsn,
                db.lm.latest_lsn < i32::MAX,
                db.lm.all_records(db.fm) == all0,
                db.fm.spec_block_size() == old(db).fm.spec_block_size(),
                forall|n: Seq<char>| db.fm.has_file(n) == old(db).fm.has_file(n),
                forall|n: Seq<char>|
                    #[trigger] db.fm.file_blocks(n).len() == old(db).fm.file_blocks(n).len(),
                db.bm.buffer_pool@.len() == old(db).bm.buffer_pool@.len(),
                forall|j: int|
                    0 <= j < db.bm.buffer_pool@.len() ==> (#[trigger] db.bm.buffer_pool@[j]).txn is None,
                forall|c: BlockIdView|
                    c.file_name != log && c.block_num < old(db).fm.file_blocks(c.file_name).len()
                        ==> #[trigger] db.cached_block(c) == scan_undo(
                        all0,
                        Set::empty(),
                        c,
                        old(db).cached_block(c),
                    ),
                quiet0 ==> db.bm == old(db).bm && (forall|n: Seq<char>|
                    n != log ==> #[trigger] db.fm.file_blocks(n) == old(db).fm.file_blocks(n)),
            decreases it.remaining(db.fm).len(),
        {
            let ghost rem0 = it.remaining(db.fm);
            let ghost db_top = *db;
            let ghost fset0 = fset;
            let ghost fin0 = finished@;
            let nxt = it.next(&mut db.fm);
            let bytes = match nxt {
                None => {
                    proof {
                        assert(!quiet0);
                        assert forall|c: BlockIdView|
                            c.file_name != log && c.block_num < old(db).fm.file_blocks(
                                c.file_name,
                            ).len() implies #[trigger] db.cached_block(c) == scan_undo(
                            all0,
                            Set::empty(),
                            c,
                            old(db).cached_block(c),
                        ) by {
                            assert(db.bm == db_top.bm);
                            assert(db.fm.file_blocks(c.file_name) == db_top.fm.file_blocks(
                                c.file_name,
                            ));
                            assert(db.cached_block(c) == db_top.cached_block(c));
                            assert(rem0.len() == 0);
                            assert(scan_undo(rem0, fset, c, db_top.cached_block(c))
                                == db_top.cached_block(c));
                        }
                    }
                    break ;
                },
                Some(b) => b,
            };
            proof {
                assert(bytes@ == rem0[0]);
            }
            let rec = match LogRecordFactory::create_log_record(bytes) {
                None => {
                    proof {
                        assert(decode_record(rem0[0]) is None);
                        assert(!quiet0);
                        assert forall|c: BlockIdView|
                            c.file_name != log && c.block_num < old(db).fm.file_blocks(
                                c.file_name,
                            ).len() implies #[trigger] db.cached_block(c) == scan_undo(
                            all0,
                            Set::empty(),
                            c,
                            old(db).cached_block(c),
                        ) by {
                            assert(db.bm == db_top.bm);
                            assert(db.fm.file_blocks(c.file_name) == db_top.fm.file_blocks(
                                c.file_name,
                            ));
                            assert(db.cached_block(c) == db_top.cached_block(c));
                            assert(scan_undo(rem0, fset, c, db_top.cached_block(c))
                                == db_top.cached_block(c));
                        }
                    }
                    break ;
                },
                Some(rec) => rec,
            };
            proof {
                assert(decode_record(rem0[0]) == Some(rec@));
            }
            let op = rec.operation();
            if op == CHECKPOINT {
                proof {
                    assert(rec@ is Checkpoint);
                    assert forall|c: BlockIdView|
                        c.file_name != log && c.block_num < old(db).fm.file_blocks(
                            c.file_name,
                        ).len() implies #[trigger] db.cached_block(c) == scan_undo(
                        all0,
                        Set::empty(),
                        c,
                        old(db).cached_block(c),
                    ) by {
                        assert(db.bm == db_top.bm);
                        assert(db.fm.file_blocks(c.file_name) == db_top.fm.file_blocks(
                            c.file_name,
                        ));
                        assert(db.cached_block(c) == db_top.cached_block(c));
                        assert(scan_undo(rem0, fset, c, db_top.cached_block(c))
                            == db_top.cached_block(c));
                    }
                    if quiet0 {
                        assert(db.bm == db_top.bm);
                        assert forall|n: Seq<char>|
                            n != log implies #[trigger] db.fm.file_blocks(n)
                            == db_top.fm.file_blocks(n) by {}
                    }
                }
                break ;
            }
            proof {
                if quiet0 {
                    assert(rem0 == all0);
                    assert(rec@ == LogRecordView::Checkpoint);
                    assert(false);
                }
            }
            if op == COMMIT || op == ROLLBACK {
                let t = rec.tx_number();
                finished.push(t);
                proof {
                    fset = fset.insert(t as int);
                    assert(finished@ == fin0.push(t));
                    assert forall|t2: int| #[trigger] fset.contains(t2) <==> exists|j: int|
                        0 <= j < finished@.len() && finished@[j] == t2 by {
                        if fset.contains(t2) {
                            if t2 == t as int {
                                assert(finished@[finished@.len() - 1] == t);
                            } else {
                                assert(fset0.contains(t2));
                                let j = choose|j: int| 0 <= j < fin0.len() && fin0[j] == t2;
                                assert(finished@[j] == t2);
                            }
                        }
                        if exists|j: int| 0 <= j < finished@.len() && finished@[j] == t2 {
                            let j = choose|j: int|
                                0 <= j < finished@.len() && finished@[j] == t2;
                            if j < finished@.len() - 1 {
                                assert(fin0[j] == t2);
                                assert(fset0.contains(t2));
                            } else {
                                assert(t2 == t as int);
                            }
                        }
                    }
                    assert(scan_finish(fset0, rec@) == fset);
                    assert forall|c: BlockIdView|
                        c.file_name != log && c.block_num < old(db).fm.file_blocks(
                            c.file_name,
                        ).len() implies #[trigger] scan_undo(
                        it.remaining(db.fm),
                        fset,
                        c,
                        db.cached_block(c),
                    ) == scan_undo(all0, Set::empty(), c, old(db).cached_block(c)) by {
                        assert(db.bm == db_top.bm);
                        assert(db.fm.file_blocks(c.file_name) == db_top.fm.file_blocks(
                            c.file_name,
                        ));
                        assert(db.cached_block(c) == db_top.cached_block(c));
                        assert(scan_undo(rem0, fset0, c, db_top.cached_block(c)) == scan_undo(
                            rem0.drop_first(),
                            fset,
                            c,
                            db_top.cached_block(c),
                        ));
                        assert(it.remaining(db.fm) == rem0.drop_first());
                    }
                    assert(scan_undo_ok(rem0, fset0, old(db).fm, log) ==> scan_undo_ok(
                        rem0.drop_first(),
                        fset,
                        old(db).fm,
                        log,
                    ));
                }
            } else if op == SETINT || op == SETSTRING {
                let t = rec.tx_number();
                if !contains_txn(&finished, t) {
                    proof {
                        assert(!fset.contains(t as int));
                    }
                    let ghost db_pre = *db;
                    match tx.apply_undo(db, &rec) {
                        Err(e) => {
                            proof {
                                assert(db_pre.lm.log_file@ == log);
                                assert(db_pre.bm == db_top.bm);
                                if scan_undo_ok(all0, Set::empty(), old(db).fm, log) {
                                    assert(scan_undo_ok(rem0, fset, old(db).fm, log));
                                    if undo_writes(rec@, log) {
                                        let tt = rec_target(rec@);
                                        match rec@ {
                                            LogRecordView::SetInt { txn, file_name, block_num, offset, .. } => {
                                                assert(txn == t as int);
                                                assert(!fset.contains(txn));
                                                assert(file_name != log);
                                                assert(old(db).fm.has_file(file_name) && block_num
                                                    < old(db).fm.file_blocks(file_name).len()
                                                    && offset + 4 <= old(db).fm.spec_block_size());
                                            },
                                            LogRecordView::SetString { txn, file_name, block_num, offset, value, .. } => {
                                                assert(txn == t as int);
                                                assert(!fset.contains(txn));
                                                assert(file_name != log);
                                                assert(old(db).fm.has_file(file_name) && block_num
                                                    < old(db).fm.file_blocks(file_name).len()
                                                    && offset + 4 + vstd::utf8::encode_utf8(
                                                    value,
                                                ).len() <= old(db).fm.spec_block_size());
                                            },
                                            _ => {
                                                assert(false);
                                            },
                                        }
                                        if old(db).fm.has_file(tt.file_name) && tt.block_num
                                            < old(db).fm.file_blocks(tt.file_name).len() {
                                            assert(db_pre.fm.has_file(tt.file_name) && tt.block_num
                                                < db_pre.fm.file_blocks(tt.file_name).len());
                                            crate::buffermanager::lemma_find_block(
                                                db_pre.bm.buffer_pool@,
                                                tt,
                                            );
                                            crate::buffermanager::lemma_find_unpinned(
                                                db_pre.bm.buffer_pool@,
                                            );
                                            if crate::buffermanager::find_unpinned(
                                                db_pre.bm.buffer_pool@,
                                            ) == -1 {
                                                assert(db_pre.bm.buffer_pool@[0].pins > 0);
                                                assert(db_top.bm.buffer_pool@[0].pins == 0);
                                                assert(false);
                                            }
                                            let fb = crate::buffermanager::find_block(
                                                db_pre.bm.buffer_pool@,
                                                tt,
                                            );
                                            if fb >= 0 {
                                                assert(db_pre.bm.buffer_pool@[fb].pins == 0);
                                            }
                                            assert(false);
                                        }
                                        assert(false);
                                    } else {
                                        assert(false);
                                    }
                                }
                                assert(db.fm.spec_block_size() == old(db).fm.spec_block_size());
                                assert(forall|n: Seq<char>|
                                    #[trigger] db.fm.has_file(n) == old(db).fm.has_file(n));
                                assert(forall|n: Seq<char>|
                                    #[trigger] db.fm.file_blocks(n).len() == old(db).fm.file_blocks(
                                        n,
                                    ).len());
                            }
                            return Err(e);
                        },
                        Ok(()) => (),
                    }
                    proof {
                        assert(db_pre.lm.log_file@ == log);
                        assert(db.fm.file_blocks(log) == db_pre.fm.file_blocks(log)) by {
                            if undo_writes(rec@, log) {
                                assert(rec_target(rec@).file_name != log);
                            } else {
                                assert(*db == db_pre);
                            }
                        }
                        assert(it.wf(db.fm));
                        assert(it.remaining(db.fm) == it.remaining(db_pre.fm));
                        assert(it.remaining(db_pre.fm) == rem0.drop_first());
                        assert forall|c: BlockIdView|
                            c.file_name != log && c.block_num < old(db).fm.file_blocks(
                                c.file_name,
                            ).len() implies #[trigger] scan_undo(
                            it.remaining(db.fm),
                            fset,
                            c,
                            db.cached_block(c),
                        ) == scan_undo(all0, Set::empty(), c, old(db).cached_block(c)) by {
                            assert(db_pre.bm == db_top.bm);
                            assert(db_pre.fm.file_blocks(c.file_name) == db_top.fm.file_blocks(
                                c.file_name,
                            ));
                            assert(db_pre.cached_block(c) == db_top.cached_block(c));
                            assert(scan_undo(rem0, fset, c, db_top.cached_block(c)) == scan_undo(
                                all0,
                                Set::empty(),
                                c,
                                old(db).cached_block(c),
                            ));
                            assert(c.block_num < db_pre.fm.file_blocks(c.file_name).len());
                            if undo_writes(rec@, log) {
                                assert(db.cached_block(c) == undo_apply(
                                    db_pre.cached_block(c),
                                    rec@,
                                    c,
                                ));
                            } else {
                                assert(*db == db_pre);
                                assert(undo_apply(db_pre.cached_block(c), rec@, c)
                                    == db_pre.cached_block(c)) by {
                                    match rec@ {
                                        LogRecordView::SetInt { file_name, offset, .. } => {
                                            assert(file_name == log || offset < 0);
                                        },
                                        LogRecordView::SetString { file_name, offset, .. } => {
                                            assert(file_name == log || offset < 0);
                                        },
                                        _ => {},
                                    }
                                }
                            }
                            assert(scan_undo(rem0, fset, c, db_top.cached_block(c)) == scan_undo(
                                rem0.drop_first(),
                                fset,
                                c,
                                undo_apply(db_top.cached_block(c), rec@, c),
                            ));
                            assert(undo_apply(db_top.cached_block(c), rec@, c) == undo_apply(
                                db_pre.cached_block(c),
                                rec@,
                                c,
                            ));
                        }
                        assert(scan_undo_ok(rem0, fset, old(db).fm, log) ==> scan_undo_ok(
                            rem0.drop_first(),
                            fset,
                            old(db).fm,
                            log,
                        ));
                    }
                } else {
                    proof {
                        assert(fset.contains(t as int));
                        assert forall|c: BlockIdView|
                            c.file_name != log && c.block_num < old(db).fm.file_blocks(
                                c.file_name,
                            ).len() implies #[trigger] scan_undo(
                            it.remaining(db.fm),
                            fset,
                            c,
                            db.cached_block(c),
                        ) == scan_undo(all0, Set::empty(), c, old(db).cached_block(c)) by {
                            assert(db.bm == db_top.bm);
                            assert(db.fm.file_blocks(c.file_name) == db_top.fm.file_blocks(
                                c.file_name,
                            ));
                            assert(db.cached_block(c) == db_top.cached_block(c));
                            assert(scan_undo(rem0, fset, c, db_top.cached_block(c)) == scan_undo(
                                rem0.drop_first(),
                                fset,
                                c,
                                db_top.cached_block(c),
                            ));
                            assert(it.remaining(db.fm) == rem0.drop_first());
                        }
                        assert(scan_undo_ok(rem0, fset, old(db).fm, log) ==> scan_undo_ok(
                            rem0.drop_first(),
                            fset,
                            old(db).fm,
                            log,
                        ));
                    }
                }
            } else {
                proof {
                    assert(rec@ is Start);
                    assert(scan_finish(fset, rec@) == fset);
                    assert forall|c: BlockIdView|
                        c.file_name != log && c.block_num < old(db).fm.file_blocks(
                            c.file_name,
                        ).len() implies #[trigger] scan_undo(
                        it.remaining(db.fm),
                        fset,
                        c,
                        db.cached_block(c),
                    ) == scan_undo(all0, Set::empty(), c, old(db).cached_block(c)) by {
                        assert(db.bm == db_top.bm);
                        assert(db.fm.file_blocks(c.file_name) == db_top.fm.file_blocks(
                            c.file_name,
                        ));
                        assert(db.cached_block(c) == db_top.cached_block(c));
                        assert(scan_undo(rem0, fset, c, db_top.cached_block(c)) == scan_undo(
                            rem0.drop_first(),
                            fset,
                            c,
                            db_top.cached_block(c),
                        ));
                        assert(it.remaining(db.fm) == rem0.drop_first());
                    }
                    assert(scan_undo_ok(rem0, fset, old(db).fm, log) ==> scan_undo_ok(
                        rem0.drop_first(),
                        fset,
                        old(db).fm,
                        log,
                    ));
                }
            }
        }
        let ghost db_scan = *db;
        let res = self.finish_with_checkpoint(tx, db);
        proof {
            assert forall|c: BlockIdView|
                c.file_name != log && c.block_num < old(db).fm.file_blocks(c.file_name).len()
                implies #[trigger] db.cached_block(c) == scan_undo(
                all0,
                Set::empty(),
                c,
                old(db).cached_block(c),
            ) by {
                assert(db.cached_block(c) == db_scan.cached_block(c));
            }
        }
        res
    }
}



/// Is every `Set` record of the log covered: its transaction already in
/// `finished`, or reported finished by a newer (earlier-scanned) `Commit`
/// or `Rollback` record?
pub open spec fn sets_covered(records: Seq<Seq<u8>>, finished: Set<int>) -> bool {
    forall|j: int|
        0 <= j < records.len() ==> (match decode_record(#[trigger] records[j]) {
            Option::Some(rec) => (rec is SetInt || rec is SetString) ==> (finished.contains(
                rec_txn(rec),
            ) || exists|k: int|
                0 <= k < j && (decode_record(#[trigger] records[k]) matches Option::Some(r2)
                    && (r2 is Commit || r2 is Rollback) && rec_txn(r2) == rec_txn(rec))),
            Option::None => true,
        })
}

/// Finished work survives recovery untouched: when every `Set` record's
/// transaction is finished before the scan reaches it — as it is for a
/// committed transaction, whose `Commit` record is newer than all its
/// `Set` records — the scan undoes nothing and every block keeps its bytes.
pub proof fn lemma_finished_sets_untouched(
    records: Seq<Seq<u8>>,
    finished: Set<int>,
    c: BlockIdView,
    b: Seq<u8>,
)
    requires
        sets_covered(records, finished),
    ensures
        scan_undo(records, finished, c, b) == b,
    decreases records.len(),
{
    if records.len() == 0 {
    } else {
        let rest = records.drop_first();
        assert(forall|j: int| 1 <= j < records.len() ==> rest[j - 1] == records[j]);
        match decode_record(records[0]) {
            Option::None => {},
            Option::Some(rec) => {
                let fin2 = scan_finish(finished, rec);
                match rec {
                    LogRecordView::Checkpoint => {},
                    LogRecordView::SetInt { txn, .. } => {
                        assert(finished.contains(txn));
                        assert(sets_covered(rest, finished)) by {
                            lemma_sets_covered_shift(records, finished, finished);
                        }
                        lemma_finished_sets_untouched(rest, finished, c, b);
                    },
                    LogRecordView::SetString { txn, .. } => {
                        assert(finished.contains(txn));
                        assert(sets_covered(rest, finished)) by {
                            lemma_sets_covered_shift(records, finished, finished);
                        }
                        lemma_finished_sets_untouched(rest, finished, c, b);
                    },
                    _ => {
                        assert(sets_covered(rest, fin2)) by {
                            lemma_sets_covered_shift(records, finished, fin2);
                        }
                        lemma_finished_sets_untouched(rest, fin2, c, b);
                    },
                }
            },
        }
    }
}

/// Dropping the newest record keeps the log covered, once what that record
/// reports is folded into the finished set.
proof fn lemma_sets_covered_shift(records: Seq<Seq<u8>>, finished: Set<int>, fin2: Set<int>)
    requires
        records.len() >= 1,
        sets_covered(records, finished),
        fin2 == (match decode_record(records[0]) {
            Option::Some(rec) => scan_finish(finished, rec),
            Option::None => finished,
        }),
    ensures
        sets_covered(records.drop_first(), fin2),
{
    let rest = records.drop_first();
    assert(forall|j: int| 1 <= j < records.len() ==> rest[j - 1] == records[j]);
    assert forall|j: int| 0 <= j < rest.len() implies (match decode_record(
        #[trigger] rest[j],
    ) {
        Option::Some(rec) => (rec is SetInt || rec is SetString) ==> (fin2.contains(rec_txn(rec))
            || exists|k: int|
                0 <= k < j && (decode_record(#[trigger] rest[k]) matches Option::Some(r2) && (
                r2 is Commit || r2 is Rollback) && rec_txn(r2) == rec_txn(rec))),
        Option::None => true,
    }) by {
        assert(rest[j] == records[j + 1]);
        match decode_record(records[j + 1]) {
            Option::Some(rec) => {
                if (rec is SetInt || rec is SetString) && !fin2.contains(rec_txn(rec)) {
                    assert(!finished.contains(rec_txn(rec)));
                    let k = choose|k: int|
                        0 <= k < j + 1 && (decode_record(#[trigger] records[k]) matches
                        Option::Some(r2) && (r2 is Commit || r2 is Rollback) && rec_txn(r2)
                            == rec_txn(rec));
                    if k == 0 {
                        assert(fin2.contains(rec_txn(rec)));
                    } else {
                        assert(rest[k - 1] == records[k]);
                        assert(decode_record(rest[k - 1]) matches Option::Some(r2) && (
                        r2 is Commit || r2 is Rollback) && rec_txn(r2) == rec_txn(rec));
                    }
                }
            },
            Option::None => {},
        }
    }
}

} // verus!
