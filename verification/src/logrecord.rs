//! The log-record codec: typed records carrying the pre-image (old value)
//! for undo, encoded to and decoded from raw log-record bytes.
//!
//! A record's first 4 bytes are its operation tag; `Start`, `Commit` and
//! `Rollback` carry only the transaction id, `Checkpoint` nothing, and the
//! `Set*` records carry transaction id, block file name (length-prefixed
//! UTF-8), block number, offset and the old value. All integers are 4-byte
//! big-endian.

use vstd::prelude::*;
use vstd::string::StringSliceAdditionalSpecFns;
use vstd::utf8::{valid_utf8, decode_utf8, encode_utf8, encode_utf8_valid_utf8,
    encode_utf8_decode_utf8};
use crate::codec::{be_of_i32, lemma_be_i32_round_trip, lemma_be_i32_nonneg,
    lemma_i32_of_small_u32};
use crate::errors::DbError;
use crate::filemanager::{BlockId, BlockStore, MAX_BLOCK_SIZE, Page, len_prefixed, page_bytes_at,
    page_i32_at, page_u32_at, bytes_readable};
use crate::logmanager::LogManager;

verus! {

pub const CHECKPOINT: i32 = 0;

pub const START: i32 = 1;

pub const COMMIT: i32 = 2;

pub const ROLLBACK: i32 = 3;

pub const SETINT: i32 = 4;

pub const SETSTRING: i32 = 5;

/// The abstract value of a decoded log record.
pub ghost enum LogRecordView {
    Checkpoint,
    Start { txn: int },
    Commit { txn: int },
    Rollback { txn: int },
    SetInt { txn: int, file_name: Seq<char>, block_num: int, offset: int, value: int },
    SetString { txn: int, file_name: Seq<char>, block_num: int, offset: int, value: Seq<char> },
}

/// The bytes of a record that carries only its tag.
pub open spec fn encode_checkpoint() -> Seq<u8> {
    be_of_i32(CHECKPOINT)
}

/// The bytes of a record that carries its tag and a transaction id.
pub open spec fn encode_txn_only(op: i32, txn: i32) -> Seq<u8> {
    be_of_i32(op) + be_of_i32(txn)
}

/// The bytes of a `SetInt` record.
pub open spec fn encode_set_int(
    txn: i32,
    file_name: Seq<char>,
    block_num: i32,
    offset: i32,
    value: i32,
) -> Seq<u8> {
    be_of_i32(SETINT) + be_of_i32(txn) + len_prefixed(encode_utf8(file_name)) + be_of_i32(
        block_num,
    ) + be_of_i32(offset) + be_of_i32(value)
}

/// The bytes of a `SetString` record.
pub open spec fn encode_set_string(
    txn: i32,
    file_name: Seq<char>,
    block_num: i32,
    offset: i32,
    value: Seq<char>,
) -> Seq<u8> {
    be_of_i32(SETSTRING) + be_of_i32(txn) + len_prefixed(encode_utf8(file_name)) + be_of_i32(
        block_num,
    ) + be_of_i32(offset) + len_prefixed(encode_utf8(value))
}

/// The record encoded by `b`, or absent when the tag is unknown or the body
/// truncated or malformed.
pub open spec fn decode_record(b: Seq<u8>) -> Option<LogRecordView> {
    if b.len() < 4 || b.len() > MAX_BLOCK_SIZE {
        None
    } else {
        let op = page_i32_at(b, 0);
        if op == CHECKPOINT {
            if b.len() == 4 {
                Some(LogRecordView::Checkpoint)
            } else {
                None
            }
        } else if op == START || op == COMMIT || op == ROLLBACK {
            if b.len() == 8 {
                let txn = page_i32_at(b, 4) as int;
                if op == START {
                    Some(LogRecordView::Start { txn })
                } else if op == COMMIT {
                    Some(LogRecordView::Commit { txn })
                } else {
                    Some(LogRecordView::Rollback { txn })
                }
            } else {
                None
            }
        } else if op == SETINT || op == SETSTRING {
            if !bytes_readable(b, 8) || !valid_utf8(page_bytes_at(b, 8)) {
                None
            } else {
                let flen = page_u32_at(b, 8) as int;
                let block_pos = 12 + flen;
                let txn = page_i32_at(b, 4) as int;
                let file_name = decode_utf8(page_bytes_at(b, 8));
                if block_pos + 8 > b.len() {
                    None
                } else {
                    let block_num = page_i32_at(b, block_pos) as int;
                    let offset = page_i32_at(b, block_pos + 4) as int;
                    if block_num < 0 || offset < 0 {
                        None
                    } else if op == SETINT {
                        if b.len() == block_pos + 12 {
                            Some(
                                LogRecordView::SetInt {
                                    txn,
                                    file_name,
                                    block_num,
                                    offset,
                                    value: page_i32_at(b, block_pos + 8) as int,
                                },
                            )
                        } else {
                            None
                        }
                    } else {
                        if bytes_readable(b, block_pos + 8) && valid_utf8(
                            page_bytes_at(b, block_pos + 8),
                        ) && b.len() == block_pos + 12 + page_u32_at(b, block_pos + 8) {
                            Some(
                                LogRecordView::SetString {
                                    txn,
                                    file_name,
                                    block_num,
                                    offset,
                                    value: decode_utf8(page_bytes_at(b, block_pos + 8)),
                                },
                            )
                        } else {
                            None
                        }
                    }
                }
            }
        } else {
            None
        }
    }
}

/// A `SetInt` undo record: the old value at `(block_id, offset)`.
pub struct SetIntLogRecord {
    pub tx_number: i32,
    pub offset: i32,
    pub block_id: BlockId,
    pub value: i32,
}

/// A `SetString` undo record: the old value at `(block_id, offset)`.
pub struct SetStringLogRecord {
    pub tx_number: i32,
    pub offset: i32,
    pub block_id: BlockId,
    pub value: String,
}

/// A `Commit` record: the named transaction has committed.
pub struct CommitLogRecord {
    pub tx_number: i32,
}

/// A decoded log record: a closed union over the six operations, matched
/// exhaustively at undo-dispatch time.
pub enum LogRecord {
    Checkpoint,
    Start(i32),
    Commit(CommitLogRecord),
    Rollback(i32),
    SetInt(SetIntLogRecord),
    SetString(SetStringLogRecord),
}

impl View for LogRecord {
    type V = LogRecordView;

    open spec fn view(&self) -> LogRecordView {
        match self {
            LogRecord::Checkpoint => LogRecordView::Checkpoint,
            LogRecord::Start(txn) => LogRecordView::Start { txn: *txn as int },
            LogRecord::Commit(c) => LogRecordView::Commit { txn: c.tx_number as int },
            LogRecord::Rollback(txn) => LogRecordView::Rollback { txn: *txn as int },
            LogRecord::SetInt(r) => LogRecordView::SetInt {
                txn: r.tx_number as int,
                file_name: r.block_id@.file_name,
                block_num: r.block_id@.block_num as int,
                offset: r.offset as int,
                value: r.value as int,
            },
            LogRecord::SetString(r) => LogRecordView::SetString {
                txn: r.tx_number as int,
                file_name: r.block_id@.file_name,
                block_num: r.block_id@.block_num as int,
                offset: r.offset as int,
                value: r.value@,
            },
        }
    }
}

impl LogRecord {
    /// The wire tag of this record.
    pub fn operation(&self) -> (r: i32)
        ensures
            r == match self@ {
                LogRecordView::Checkpoint => CHECKPOINT,
                LogRecordView::Start { .. } => START,
                LogRecordView::Commit { .. } => COMMIT,
                LogRecordView::Rollback { .. } => ROLLBACK,
                LogRecordView::SetInt { .. } => SETINT,
                LogRecordView::SetString { .. } => SETSTRING,
            },
    {
        match self {
            LogRecord::Checkpoint => CHECKPOINT,
            LogRecord::Start(_) => START,
            LogRecord::Commit(_) => COMMIT,
            LogRecord::Rollback(_) => ROLLBACK,
            LogRecord::SetInt(_) => SETINT,
            LogRecord::SetString(_) => SETSTRING,
        }
    }

    /// The transaction id this record belongs to; a `Checkpoint` has none
    /// and reports 0, as the wire format has no field for it.
    pub fn tx_number(&self) -> (r: i32)
        ensures
            r as int == match self@ {
                LogRecordView::Checkpoint => 0,
                LogRecordView::Start { txn } => txn,
                LogRecordView::Commit { txn } => txn,
                LogRecordView::Rollback { txn } => txn,
                LogRecordView::SetInt { txn, .. } => txn,
                LogRecordView::SetString { txn, .. } => txn,
            },
    {
        match self {
            LogRecord::Checkpoint => 0,
            LogRecord::Start(txn) => *txn,
            LogRecord::Commit(c) => c.tx_number,
            LogRecord::Rollback(txn) => *txn,
            LogRecord::SetInt(r) => r.tx_number,
            LogRecord::SetString(r) => r.tx_number,
        }
    }
}

/// Appends `src` to `dst`.
fn push_slice(dst: &mut Vec<u8>, src: &[u8])
    ensures
        final(dst)@ == old(dst)@ + src@,
{
    let mut i: usize = 0;
    while i < src.len()
        invariant
            i <= src@.len(),
            dst@ =~= old(dst)@ + src@.subrange(0, i as int),
        decreases src@.len() - i,
    {
        dst.push(src[i]);
        proof {
            assert(dst@ =~= old(dst)@ + src@.subrange(0, i + 1));
        }
        i = i + 1;
    }
    proof {
        assert(dst@ =~= old(dst)@ + src@);
    }
}

/// Appends the 4 big-endian bytes of `v` to `dst`.
fn push_i32(dst: &mut Vec<u8>, v: i32)
    ensures
        final(dst)@ == old(dst)@ + be_of_i32(v),
{
    let u = v as u32;
    proof {
        assert(((u >> 24) & 0xff) < 256 && ((u >> 16) & 0xff) < 256 && ((u >> 8) & 0xff) < 256 && (
        u & 0xff) < 256) by (bit_vector);
    }
    dst.push(((u >> 24u32) & 0xff) as u8);
    dst.push(((u >> 16u32) & 0xff) as u8);
    dst.push(((u >> 8u32) & 0xff) as u8);
    dst.push((u & 0xff) as u8);
    proof {
        assert(dst@ =~= old(dst)@ + be_of_i32(v));
    }
}

/// Appends a length-prefixed byte run to `dst`.
fn push_len_prefixed(dst: &mut Vec<u8>, src: &[u8])
    requires
        src@.len() <= MAX_BLOCK_SIZE,
    ensures
        final(dst)@ == old(dst)@ + len_prefixed(src@),
{
    push_i32(dst, src.len() as i32);
    push_slice(dst, src);
    proof {
        lemma_be_i32_nonneg(src@.len() as i32);
        assert(be_of_i32(src@.len() as i32) =~= crate::codec::be_of_u32(src@.len() as u32));
        assert(dst@ =~= old(dst)@ + len_prefixed(src@));
    }
}

/// Decodes raw log-record bytes into a typed record.
pub struct LogRecordFactory;

impl LogRecordFactory {
    /// Decodes one raw record. An unknown tag or a truncated or malformed
    /// body yields nothing; recovery treats that as end-of-usable-log.
    pub fn create_log_record(bytes: Vec<u8>) -> (r: Option<LogRecord>)
        ensures
            match r {
                Some(rec) => decode_record(bytes@) == Some(rec@),
                None => decode_record(bytes@) is None,
            },
    {
        if bytes.len() < 4 || bytes.len() > MAX_BLOCK_SIZE {
            return None;
        }
        let ghost bseq = bytes@;
        let page = crate::filemanager::PageBuilder::new().with_log_buffer(bytes).build();
        let op = page.get_int(0).unwrap();
        if op == CHECKPOINT {
            if page.block_size() == 4 {
                Some(LogRecord::Checkpoint)
            } else {
                None
            }
        } else if op == START || op == COMMIT || op == ROLLBACK {
            if page.block_size() != 8 {
                return None;
            }
            let txn = page.get_int(4).unwrap();
            if op == START {
                Some(LogRecord::Start(txn))
            } else if op == COMMIT {
                Some(LogRecord::Commit(CommitLogRecord { tx_number: txn }))
            } else {
                Some(LogRecord::Rollback(txn))
            }
        } else if op == SETINT || op == SETSTRING {
            let fname = match page.get_string(8) {
                Some(s) => s,
                None => {
                    return None;
                },
            };
            let txn = page.get_int(4).unwrap();
            let lb = page.get_int(8).unwrap();
            proof {
                lemma_i32_of_small_u32(page_u32_at(bseq, 8));
            }
            let block_pos = 12 + (lb as usize);
            if block_pos > page.block_size() || page.block_size() - block_pos < 8 {
                return None;
            }
            let block_num = page.get_int(block_pos).unwrap();
            let offset = page.get_int(block_pos + 4).unwrap();
            if block_num < 0 || offset < 0 {
                return None;
            }
            if op == SETINT {
                if page.block_size() != block_pos + 12 {
                    return None;
                }
                let value = page.get_int(block_pos + 8).unwrap();
                Some(
                    LogRecord::SetInt(
                        SetIntLogRecord {
                            tx_number: txn,
                            offset,
                            block_id: BlockId::new(fname.as_str(), block_num as usize),
                            value,
                        },
                    ),
                )
            } else {
                let value = match page.get_string(block_pos + 8) {
                    Some(s) => s,
                    None => {
                        return None;
                    },
                };
                let vl = page.get_int(block_pos + 8).unwrap();
                proof {
                    lemma_i32_of_small_u32(page_u32_at(bseq, block_pos + 8));
                }
                if page.block_size() != block_pos + 12 + (vl as usize) {
                    return None;
                }
                Some(
                    LogRecord::SetString(
                        SetStringLogRecord {
                            tx_number: txn,
                            offset,
                            block_id: BlockId::new(fname.as_str(), block_num as usize),
                            value,
                        },
                    ),
                )
            }
        } else {
            None
        }
    }
}

impl CommitLogRecord {
    /// Decodes a page's bytes as a `Commit` record; anything else is a
    /// corrupt record here.
    pub fn new(page: Page) -> (r: Result<CommitLogRecord, DbError>)
        ensures
            match r {
                Ok(rec) => decode_record(page@) == Some(
                    LogRecordView::Commit { txn: rec.tx_number as int },
                ),
                Err(e) => e == DbError::CorruptLogRecord && !(decode_record(page@) matches Some(
                    LogRecordView::Commit { .. },
                )),
            },
    {
        let mut v: Vec<u8> = Vec::new();
        push_slice(&mut v, page.bytes().as_slice());
        match LogRecordFactory::create_log_record(v) {
            Some(LogRecord::Commit(c)) => Ok(c),
            _ => Err(DbError::CorruptLogRecord),
        }
    }

    /// Appends a `Commit` record for the transaction and returns its LSN.
    pub fn write_to_log_record(lm: &mut LogManager, fm: &mut BlockStore, tx_number: i32) -> (r:
        i32)
        requires
            old(lm).wf(*old(fm)),
            old(lm).latest_lsn < i32::MAX,
            16 <= old(fm).spec_block_size(),
        ensures
            final(lm).wf(*final(fm)),
            final(lm).log_file == old(lm).log_file,
            final(lm).latest_lsn == old(lm).latest_lsn + 1,
            r == final(lm).latest_lsn,
            final(lm).all_records(*final(fm)) == seq![encode_txn_only(COMMIT, tx_number)] + old(lm).all_records(*old(fm)),
            final(fm).spec_block_size() == old(fm).spec_block_size(),
            final(fm).is_new() == old(fm).is_new(),
            forall|n: Seq<char>|
                n != old(lm).log_file@ ==> final(fm).has_file(n) == old(fm).has_file(n)
                    && final(fm).file_blocks(n) == old(fm).file_blocks(n),
    {
        let mut rec: Vec<u8> = Vec::new();
        push_i32(&mut rec, COMMIT);
        push_i32(&mut rec, tx_number);
        proof {
            assert(rec@ =~= encode_txn_only(COMMIT, tx_number));
        }
        lm.append(fm, rec)
    }
}

/// Appends a record carrying only a tag and transaction id, and returns its
/// LSN. `op` must be one of `START`, `COMMIT` or `ROLLBACK`.
pub fn write_txn_only_record(lm: &mut LogManager, fm: &mut BlockStore, op: i32, tx_number: i32)
    -> (r: i32)
    requires
        old(lm).wf(*old(fm)),
        old(lm).latest_lsn < i32::MAX,
        16 <= old(fm).spec_block_size(),
    ensures
        final(lm).wf(*final(fm)),
        final(lm).log_file == old(lm).log_file,
        final(lm).latest_lsn == old(lm).latest_lsn + 1,
        r == final(lm).latest_lsn,
        final(lm).all_records(*final(fm)) == seq![encode_txn_only(op, tx_number)] + old(lm).all_records(*old(fm)),
        final(fm).spec_block_size() == old(fm).spec_block_size(),
        final(fm).is_new() == old(fm).is_new(),
        forall|n: Seq<char>|
            n != old(lm).log_file@ ==> final(fm).has_file(n) == old(fm).has_file(n)
                && final(fm).file_blocks(n) == old(fm).file_blocks(n),
{
    let mut rec: Vec<u8> = Vec::new();
    push_i32(&mut rec, op);
    push_i32(&mut rec, tx_number);
    proof {
        assert(rec@ =~= encode_txn_only(op, tx_number));
    }
    lm.append(fm, rec)
}

/// Appends a `Checkpoint` record and returns its LSN.
pub fn write_checkpoint_record(lm: &mut LogManager, fm: &mut BlockStore) -> (r: i32)
    requires
        old(lm).wf(*old(fm)),
        old(lm).latest_lsn < i32::MAX,
        16 <= old(fm).spec_block_size(),
    ensures
        final(lm).wf(*final(fm)),
        final(lm).log_file == old(lm).log_file,
        final(lm).latest_lsn == old(lm).latest_lsn + 1,
        r == final(lm).latest_lsn,
        final(lm).all_records(*final(fm)) == seq![encode_checkpoint()] + old(lm).all_records(
            *old(fm),
        ),
        final(fm).spec_block_size() == old(fm).spec_block_size(),
        final(fm).is_new() == old(fm).is_new(),
        forall|n: Seq<char>|
            n != old(lm).log_file@ ==> final(fm).has_file(n) == old(fm).has_file(n)
                && final(fm).file_blocks(n) == old(fm).file_blocks(n),
{
    let mut rec: Vec<u8> = Vec::new();
    push_i32(&mut rec, CHECKPOINT);
    proof {
        assert(rec@ =~= encode_checkpoint());
    }
    lm.append(fm, rec)
}

impl SetIntLogRecord {
    /// Decodes a page's bytes as a `SetInt` record; anything else is a
    /// corrupt record here.
    pub fn new(page: Page) -> (r: Result<SetIntLogRecord, DbError>)
        ensures
            match r {
                Ok(rec) => decode_record(page@) == Some(
                    LogRecordView::SetInt {
                        txn: rec.tx_number as int,
                        file_name: rec.block_id@.file_name,
                        block_num: rec.block_id@.block_num as int,
                        offset: rec.offset as int,
                        value: rec.value as int,
                    },
                ),
                Err(e) => e == DbError::CorruptLogRecord && !(decode_record(page@) matches Some(
                    LogRecordView::SetInt { .. },
                )),
            },
    {
        let mut v: Vec<u8> = Vec::new();
        push_slice(&mut v, page.bytes().as_slice());
        match LogRecordFactory::create_log_record(v) {
            Some(LogRecord::SetInt(r)) => Ok(r),
            _ => Err(DbError::CorruptLogRecord),
        }
    }

    /// Appends a `SetInt` undo record holding the old value and returns its
    /// LSN.
    pub fn write_to_log_record(
        lm: &mut LogManager,
        fm: &mut BlockStore,
        tx_number: i32,
        block_id: &BlockId,
        offset: i32,
        value: i32,
    ) -> (r: i32)
        requires
            old(lm).wf(*old(fm)),
            old(lm).latest_lsn < i32::MAX,
            block_id@.block_num <= i32::MAX,
            encode_set_int(
                tx_number,
                block_id@.file_name,
                block_id@.block_num as i32,
                offset,
                value,
            ).len() + 8 <= old(fm).spec_block_size(),
        ensures
            final(lm).wf(*final(fm)),
            final(lm).log_file == old(lm).log_file,
            final(lm).latest_lsn == old(lm).latest_lsn + 1,
            r == final(lm).latest_lsn,
            final(lm).all_records(*final(fm)) == seq![
                encode_set_int(
                    tx_number,
                    block_id@.file_name,
                    block_id@.block_num as i32,
                    offset,
                    value,
                ),
            ] + old(lm).all_records(*old(fm)),
            final(fm).spec_block_size() == old(fm).spec_block_size(),
            final(fm).is_new() == old(fm).is_new(),
            forall|n: Seq<char>|
                n != old(lm).log_file@ ==> final(fm).has_file(n) == old(fm).has_file(n)
                    && final(fm).file_blocks(n) == old(fm).file_blocks(n),
    {
        proof {
            fm.lemma_inv_facts();
        }
        let mut rec: Vec<u8> = Vec::new();
        push_i32(&mut rec, SETINT);
        push_i32(&mut rec, tx_number);
        let fname = block_id.file_name();
        push_len_prefixed(&mut rec, fname.as_str().as_bytes());
        push_i32(&mut rec, block_id.block_num() as i32);
        push_i32(&mut rec, offset);
        push_i32(&mut rec, value);
        proof {
            assert(rec@ =~= encode_set_int(
                tx_number,
                block_id@.file_name,
                block_id@.block_num as i32,
                offset,
                value,
            ));
        }
        lm.append(fm, rec)
    }
}

impl SetStringLogRecord {
    /// Decodes a page's bytes as a `SetString` record; anything else is a
    /// corrupt record here.
    pub fn new(page: Page) -> (r: Result<SetStringLogRecord, DbError>)
        ensures
            match r {
                Ok(rec) => decode_record(page@) == Some(
                    LogRecordView::SetString {
                        txn: rec.tx_number as int,
                        file_name: rec.block_id@.file_name,
                        block_num: rec.block_id@.block_num as int,
                        offset: rec.offset as int,
                        value: rec.value@,
                    },
                ),
                Err(e) => e == DbError::CorruptLogRecord && !(decode_record(page@) matches Some(
                    LogRecordView::SetString { .. },
                )),
            },
    {
        let mut v: Vec<u8> = Vec::new();
        push_slice(&mut v, page.bytes().as_slice());
        match LogRecordFactory::create_log_record(v) {
            Some(LogRecord::SetString(r)) => Ok(r),
            _ => Err(DbError::CorruptLogRecord),
        }
    }

    /// Appends a `SetString` undo record holding the old value and returns
    /// its LSN.
    pub fn write_to_log_record(
        lm: &mut LogManager,
        fm: &mut BlockStore,
        tx_number: i32,
        block_id: &BlockId,
        offset: i32,
        value: String,
    ) -> (r: i32)
        requires
            old(lm).wf(*old(fm)),
            old(lm).latest_lsn < i32::MAX,
            block_id@.block_num <= i32::MAX,
            encode_set_string(
                tx_number,
                block_id@.file_name,
                block_id@.block_num as i32,
                offset,
                value@,
            ).len() + 8 <= old(fm).spec_block_size(),
        ensures
            final(lm).wf(*final(fm)),
            final(lm).log_file == old(lm).log_file,
            final(lm).latest_lsn == old(lm).latest_lsn + 1,
            r == final(lm).latest_lsn,
            final(lm).all_records(*final(fm)) == seq![
                encode_set_string(
                    tx_number,
                    block_id@.file_name,
                    block_id@.block_num as i32,
                    offset,
                    value@,
                ),
            ] + old(lm).all_records(*old(fm)),
            final(fm).spec_block_size() == old(fm).spec_block_size(),
            final(fm).is_new() == old(fm).is_new(),
            forall|n: Seq<char>|
                n != old(lm).log_file@ ==> final(fm).has_file(n) == old(fm).has_file(n)
                    && final(fm).file_blocks(n) == old(fm).file_blocks(n),
    {
        proof {
            fm.lemma_inv_facts();
        }
        let mut rec: Vec<u8> = Vec::new();
        push_i32(&mut rec, SETSTRING);
        push_i32(&mut rec, tx_number);
        let fname = block_id.file_name();
        push_len_prefixed(&mut rec, fname.as_str().as_bytes());
        push_i32(&mut rec, block_id.block_num() as i32);
        push_i32(&mut rec, offset);
        push_len_prefixed(&mut rec, value.as_str().as_bytes());
        proof {
            assert(rec@ =~= encode_set_string(
                tx_number,
                block_id@.file_name,
                block_id@.block_num as i32,
                offset,
                value@,
            ));
        }
        lm.append(fm, rec)
    }
}

/// Round-trip law: encoding a `SetInt` record and decoding it recovers the
/// identical transaction id, block, offset and old value.
pub proof fn lemma_set_int_round_trip(
    txn: i32,
    file_name: Seq<char>,
    block_num: i32,
    offset: i32,
    value: i32,
)
    requires
        0 <= block_num,
        0 <= offset,
        encode_set_int(txn, file_name, block_num, offset, value).len() <= MAX_BLOCK_SIZE,
    ensures
        decode_record(encode_set_int(txn, file_name, block_num, offset, value)) == Some(
            LogRecordView::SetInt {
                txn: txn as int,
                file_name,
                block_num: block_num as int,
                offset: offset as int,
                value: value as int,
            },
        ),
{
    lemma_be_i32_round_trip();
    let fb = encode_utf8(file_name);
    let b = encode_set_int(txn, file_name, block_num, offset, value);
    let flen = fb.len() as int;
    let bp = 12 + flen;
    assert(b.len() == bp + 12);
    assert(b.subrange(0, 4) =~= be_of_i32(SETINT));
    assert(page_i32_at(b, 0) == SETINT);
    assert(b.subrange(4, 8) =~= be_of_i32(txn));
    assert(page_i32_at(b, 4) == txn);
    assert(b.subrange(8, 12) =~= be_of_i32(flen as i32));
    lemma_be_i32_nonneg(flen as i32);
    assert(page_u32_at(b, 8) == flen);
    assert(bytes_readable(b, 8));
    assert(page_bytes_at(b, 8) =~= fb);
    encode_utf8_valid_utf8(file_name);
    encode_utf8_decode_utf8(file_name);
    assert(b.subrange(bp, bp + 4) =~= be_of_i32(block_num));
    assert(page_i32_at(b, bp) == block_num);
    assert(b.subrange(bp + 4, bp + 8) =~= be_of_i32(offset));
    assert(page_i32_at(b, bp + 4) == offset);
    assert(b.subrange(bp + 8, bp + 12) =~= be_of_i32(value));
    assert(page_i32_at(b, bp + 8) == value);
}

/// Round-trip law: encoding a `SetString` record and decoding it recovers
/// the identical transaction id, block, offset and old value.
pub proof fn lemma_set_string_round_trip(
    txn: i32,
    file_name: Seq<char>,
    block_num: i32,
    offset: i32,
    value: Seq<char>,
)
    requires
        0 <= block_num,
        0 <= offset,
        encode_set_string(txn, file_name, block_num, offset, value).len() <= MAX_BLOCK_SIZE,
    ensures
        decode_record(encode_set_string(txn, file_name, block_num, offset, value)) == Some(
            LogRecordView::SetString {
                txn: txn as int,
                file_name,
                block_num: block_num as int,
                offset: offset as int,
                value,
            },
        ),
{
    lemma_be_i32_round_trip();
    let fb = encode_utf8(file_name);
    let vb = encode_utf8(value);
    let b = encode_set_string(txn, file_name, block_num, offset, value);
    let flen = fb.len() as int;
    let vlen = vb.len() as int;
    let bp = 12 + flen;
    assert(b.len() == bp + 12 + vlen);
    assert(b.subrange(0, 4) =~= be_of_i32(SETSTRING));
    assert(page_i32_at(b, 0) == SETSTRING);
    assert(b.subrange(4, 8) =~= be_of_i32(txn));
    assert(page_i32_at(b, 4) == txn);
    assert(b.subrange(8, 12) =~= be_of_i32(flen as i32));
    lemma_be_i32_nonneg(flen as i32);
    assert(page_u32_at(b, 8) == flen);
    assert(bytes_readable(b, 8));
    assert(page_bytes_at(b, 8) =~= fb);
    encode_utf8_valid_utf8(file_name);
    encode_utf8_decode_utf8(file_name);
    assert(b.subrange(bp, bp + 4) =~= be_of_i32(block_num));
    assert(page_i32_at(b, bp) == block_num);
    assert(b.subrange(bp + 4, bp + 8) =~= be_of_i32(offset));
    assert(page_i32_at(b, bp + 4) == offset);
    assert(b.subrange(bp + 8, bp + 12) =~= be_of_i32(vlen as i32));
    lemma_be_i32_nonneg(vlen as i32);
    assert(page_u32_at(b, bp + 8) == vlen);
    assert(bytes_readable(b, bp + 8));
    assert(page_bytes_at(b, bp + 8) =~= vb);
    encode_utf8_valid_utf8(value);
    encode_utf8_decode_utf8(value);
}

/// Round-trip law for the tag-and-transaction records.
pub proof fn lemma_txn_only_round_trip(op: i32, txn: i32)
    requires
        op == START || op == COMMIT || op == ROLLBACK,
    ensures
        decode_record(encode_txn_only(op, txn)) == Some(
            if op == START {
                LogRecordView::Start { txn: txn as int }
            } else if op == COMMIT {
                LogRecordView::Commit { txn: txn as int }
            } else {
                LogRecordView::Rollback { txn: txn as int }
            },
        ),
{
    lemma_be_i32_round_trip();
    let b = encode_txn_only(op, txn);
    assert(b.len() == 8);
    assert(b.subrange(0, 4) =~= be_of_i32(op));
    assert(page_i32_at(b, 0) == op);
    assert(b.subrange(4, 8) =~= be_of_i32(txn));
    assert(page_i32_at(b, 4) == txn);
}

/// Round-trip law for the `Checkpoint` record.
pub proof fn lemma_checkpoint_round_trip()
    ensures
        decode_record(encode_checkpoint()) == Some(LogRecordView::Checkpoint),
{
    lemma_be_i32_round_trip();
    let b = encode_checkpoint();
    assert(b.len() == 4);
    assert(b.subrange(0, 4) =~= be_of_i32(CHECKPOINT));
    assert(page_i32_at(b, 0) == CHECKPOINT);
}

} // verus!
