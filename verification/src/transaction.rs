//! Transactions: the get/set call surface over pinned buffers, with
//! write-ahead undo logging, commit, rollback and crash recovery.
//!
//! Each transaction owns the set of blocks it has pinned and its own lock
//! set over the shared descriptor rules: a block it already holds is not
//! re-requested, and a shared lock is never upgraded — a write to a block
//! the transaction has only read fails with `LockTimeout`, and the caller
//! must abort, as strict two-phase locking demands.

use vstd::prelude::*;
use crate::buffermanager::{Buffer, count_unpinned, find_block, lemma_find_block,
    lemma_find_block_unique, lemma_count_unpinned_same_pins};
use crate::concurrencymanager::ConcurrencyManager;
use crate::database::Database;
use crate::errors::DbError;
use crate::filemanager::{BlockId, BlockIdView, int_in_range, page_i32_at, page_bytes_at,
    bytes_readable, len_prefixed};
use crate::logmanager::durable_records;
use crate::logrecord::{LogRecord, LogRecordView, START, encode_txn_only};
use crate::recoverymanager::RecoveryManager;

verus! {

/// The position of this transaction's entry for block `b`, or -1. An entry
/// is `(block, pool slot, this transaction's pin count)`.
pub open spec fn find_entry(entries: Seq<(BlockId, usize, usize)>, b: BlockIdView) -> int
    decreases entries.len(),
{
    if entries.len() == 0 {
        -1
    } else if entries[0].0@ == b {
        0
    } else {
        let r = find_entry(entries.drop_first(), b);
        if r == -1 {
            -1
        } else {
            r + 1
        }
    }
}

pub proof fn lemma_find_entry(entries: Seq<(BlockId, usize, usize)>, b: BlockIdView)
    ensures
        -1 <= find_entry(entries, b) < entries.len(),
        find_entry(entries, b) == -1 <==> forall|j: int|
            0 <= j < entries.len() ==> (#[trigger] entries[j].0)@ != b,
        find_entry(entries, b) >= 0 ==> entries[find_entry(entries, b)].0@ == b && forall|j: int|
            0 <= j < find_entry(entries, b) ==> (#[trigger] entries[j].0)@ != b,
    decreases entries.len(),
{
    if entries.len() > 0 {
        let rest = entries.drop_first();
        lemma_find_entry(rest, b);
        assert(forall|j: int| 1 <= j < entries.len() ==> entries[j] == rest[j - 1]);
        if entries[0].0@ != b {
            let rr = find_entry(rest, b);
            if rr == -1 {
                assert forall|j: int| 0 <= j < entries.len() implies (#[trigger] entries[j].0)@
                    != b by {
                    if j > 0 {
                        assert(rest[j - 1].0@ != b);
                    }
                }
            } else {
                assert forall|j: int| 0 <= j < rr + 1 implies (#[trigger] entries[j].0)@
                    != b by {
                    if j > 0 {
                        assert(rest[j - 1].0@ != b);
                    }
                }
            }
        }
    }
}

/// The blocks this transaction has pinned: for each, the pool slot holding
/// it and how many of this transaction's pins it carries. Only the first
/// pin claims the underlying pool slot; the rest are bookkeeping, released
/// when the count returns to zero.
pub struct BufferList {
    pub entries: Vec<(BlockId, usize, usize)>,
}

impl BufferList {
    pub fn new() -> (r: BufferList)
        ensures
            r.entries@.len() == 0,
    {
        BufferList { entries: Vec::new() }
    }

    /// The entry for this block, as `find_entry` sees it.
    fn lookup(&self, block_id: &BlockId) -> (r: Option<usize>)
        ensures
            match r {
                Some(i) => i < self.entries@.len() && find_entry(self.entries@, block_id@) == i
                    && self.entries@[i as int].0@ == block_id@,
                None => find_entry(self.entries@, block_id@) == -1,
            },
    {
        let mut i: usize = 0;
        while i < self.entries.len()
            invariant
                i <= self.entries@.len(),
                forall|j: int| 0 <= j < i ==> (#[trigger] self.entries@[j].0)@ != block_id@,
            decreases self.entries@.len() - i,
        {
            if self.entries[i].0 == *block_id {
                proof {
                    lemma_find_entry(self.entries@, block_id@);
                    let r = find_entry(self.entries@, block_id@);
                    if r == -1 {
                        assert(self.entries@[i as int].0@ != block_id@);
                    } else if r < i {
                        assert(self.entries@[r].0@ != block_id@);
                    } else if r > i {
                        assert(self.entries@[i as int].0@ != block_id@);
                    }
                }
                return Some(i);
            }
            i = i + 1;
        }
        proof {
            lemma_find_entry(self.entries@, block_id@);
        }
        None
    }
}

/// One transaction: a monotonic id, the blocks it has pinned, and its
/// lock set.
pub struct Transaction {
    pub txn_num: i32,
    pub buffer_list: BufferList,
    pub concurrency: ConcurrencyManager,
}

impl Transaction {
    /// Well-formedness against the engine: every entry names a live pool
    /// slot that holds its block and is pinned, and no block has two
    /// entries.
    pub open spec fn wf(self, db: Database) -> bool {
        let entries = self.buffer_list.entries@;
        let pool = db.bm.buffer_pool@;
        &&& self.concurrency.inv()
        &&& 0 <= self.txn_num
        &&& forall|i: int|
            0 <= i < entries.len() ==> (#[trigger] entries[i]).1 < pool.len() && (pool[entries[i].1 as int].block_id matches Some(bb) && bb@ == entries[i].0@) && pool[entries[i].1 as int].pins
                >= 1 && entries[i].2 >= 1
        &&& forall|i: int, j: int|
            0 <= i < j < entries.len() ==> (#[trigger] entries[i]).0@ != (
            #[trigger] entries[j]).0@
    }

    /// Does this transaction hold a pin on the block?
    pub open spec fn pins_block(self, b: BlockIdView) -> bool {
        find_entry(self.buffer_list.entries@, b) >= 0
    }

    /// The outcome `pin` owes on this state: success when this transaction
    /// already holds the block, when some buffer holds it, or when an
    /// unpinned slot can be loaded from an existing block; the exact error
    /// otherwise. The saturation guards keep the counters from overflowing.
    pub open spec fn pin_result(self, db: Database, b: BlockIdView) -> Result<(), DbError> {
        let e = find_entry(self.buffer_list.entries@, b);
        let fb = find_block(db.bm.buffer_pool@, b);
        let fu = crate::buffermanager::find_unpinned(db.bm.buffer_pool@);
        if e >= 0 {
            if self.buffer_list.entries@[e].2 < usize::MAX {
                Ok(())
            } else {
                Err(DbError::BufferUnavailable)
            }
        } else if fb >= 0 {
            if db.bm.buffer_pool@[fb].pins < usize::MAX {
                Ok(())
            } else {
                Err(DbError::BufferUnavailable)
            }
        } else if fu >= 0 {
            if db.fm.has_file(b.file_name) && b.block_num < db.fm.file_blocks(b.file_name).len() {
                Ok(())
            } else {
                Err(DbError::BlockNotFound)
            }
        } else {
            Err(DbError::BufferUnavailable)
        }
    }

    /// Begins a transaction: takes the next id and appends a `Start`
    /// record.
    pub fn new(db: &mut Database) -> (r: Transaction)
        requires
            old(db).wf(),
            old(db).next_txn < i32::MAX,
            old(db).lm.latest_lsn < i32::MAX,
        ensures
            final(db).wf(),
            r.wf(*final(db)),
            r.txn_num == old(db).next_txn,
            r.buffer_list.entries@.len() == 0,
            final(db).next_txn == old(db).next_txn + 1,
            final(db).lm.log_file == old(db).lm.log_file,
            final(db).lm.latest_lsn == old(db).lm.latest_lsn + 1,
            final(db).lm.all_records(final(db).fm) == seq![
                encode_txn_only(START, old(db).next_txn),
            ] + old(db).lm.all_records(old(db).fm),
            final(db).bm.buffer_pool@ == old(db).bm.buffer_pool@,
            final(db).bm.buff_n_available == old(db).bm.buff_n_available,
            final(db).fm.spec_block_size() == old(db).fm.spec_block_size(),
            final(db).fm.is_new() == old(db).fm.is_new(),
            forall|n: Seq<char>|
                n != old(db).lm.log_file@ ==> final(db).fm.has_file(n) == old(db).fm.has_file(n)
                    && final(db).fm.file_blocks(n) == old(db).fm.file_blocks(n),
    {
        let txn_num = db.next_txn;
        db.next_txn = db.next_txn + 1;
        let ghost lm0 = db.lm;
        let ghost fm0 = db.fm;
        crate::logrecord::write_txn_only_record(&mut db.lm, &mut db.fm, START, txn_num);
        proof {
            assert forall|i: int|
                0 <= i < db.bm.buffer_pool@.len() implies (#[trigger] db.bm.buffer_pool@[i]).buf_wf(
                db.fm,
                db.lm,
            ) by {
                assert(db.bm.buffer_pool@[i].buf_wf(fm0, lm0));
            }
        }
        Transaction {
            txn_num,
            buffer_list: BufferList::new(),
            concurrency: ConcurrencyManager::new(),
        }
    }

    /// Pins a block on behalf of this transaction. A block already pinned
    /// by this transaction is only counted again; otherwise one pool pin is
    /// taken. Pinning never changes the engine's view of any block's bytes.
    pub fn pin(&mut self, db: &mut Database, block_id: &BlockId) -> (r: Result<(), DbError>)
        requires
            old(self).wf(*old(db)),
            old(db).wf(),
            block_id@.file_name != old(db).lm.log_file@,
        ensures
            final(db).wf(),
            final(self).wf(*final(db)),
            final(self).txn_num == old(self).txn_num,
            final(self).concurrency == old(self).concurrency,
            final(db).lm == old(db).lm,
            final(db).next_txn == old(db).next_txn,
            final(db).fm.spec_block_size() == old(db).fm.spec_block_size(),
            final(db).fm.is_new() == old(db).fm.is_new(),
            forall|n: Seq<char>|
                final(db).fm.has_file(n) == old(db).fm.has_file(n) && final(db).fm.file_blocks(n)
                    == old(db).fm.file_blocks(n),
            final(db).bm.buffer_pool@.len() == old(db).bm.buffer_pool@.len(),
            r == old(self).pin_result(*old(db), block_id@),
            match r {
                Ok(()) => final(self).pins_block(block_id@) && final(db).cached_block(block_id@)
                    == old(db).cached_block(block_id@) && (forall|c: BlockIdView|
                    old(self).pins_block(c) ==> final(self).pins_block(c) && final(db).cached_block(
                        c,
                    ) == old(db).cached_block(c)) && (forall|j: int|
                    0 <= j < old(db).bm.buffer_pool@.len() && j != find_block(
                        final(db).bm.buffer_pool@,
                        block_id@,
                    ) ==> #[trigger] final(db).bm.buffer_pool@[j] == old(db).bm.buffer_pool@[j]),
                Err(e) => (e == DbError::BufferUnavailable || e == DbError::BlockNotFound) && final(self).buffer_list.entries@ == old(self).buffer_list.entries@ && final(db).bm.buffer_pool@
                    == old(db).bm.buffer_pool@ && final(db).bm.buff_n_available == old(db).bm.buff_n_available,
            },
    {
        let ghost entries0 = self.buffer_list.entries@;
        let ghost pool0 = db.bm.buffer_pool@;
        proof {
            lemma_find_entry(entries0, block_id@);
        }
        match self.buffer_list.lookup(block_id) {
            Some(i) => {
                let count = self.entries_count(i);
                if count == usize::MAX {
                    return Err(DbError::BufferUnavailable);
                }
                let key = self.buffer_list.entries[i].0.clone();
                let slot = self.buffer_list.entries[i].1;
                self.buffer_list.entries[i] = (key, slot, count + 1);
                proof {
                    assert forall|j: int|
                        0 <= j < entries0.len() implies (#[trigger] self.buffer_list.entries@[j]).0@
                        == entries0[j].0@ && self.buffer_list.entries@[j].1 == entries0[j].1 by {
                        if j != i {
                            assert(self.buffer_list.entries@[j] == entries0[j]);
                        }
                    }
                    lemma_find_entry_same_blocks(entries0, self.buffer_list.entries@);
                    assert forall|c: BlockIdView|
                        old(self).pins_block(c) implies self.pins_block(c) && db.cached_block(c)
                        == old(db).cached_block(c) by {
                        lemma_find_entry_same_blocks(entries0, self.buffer_list.entries@);
                    }
                    assert(forall|j: int|
                        0 <= j < pool0.len() ==> #[trigger] db.bm.buffer_pool@[j] == pool0[j]);
                }
                Ok(())
            },
            None => {
                let nb = db.bm.buffer_pool.len();
                proof {
                    assert(pool0.len() == nb);
                }
                let r = db.bm.pin(&mut db.fm, &db.lm, block_id);
                match r {
                    Err(e) => Err(e),
                    Ok(idx) => {
                        let b2 = block_id.clone();
                        self.buffer_list.entries.push((b2, idx, 1));
                        proof {
                            lemma_find_block(pool0, block_id@);
                            crate::buffermanager::lemma_find_unpinned(pool0);
                            assert(db.bm.buffer_pool@.len() == pool0.len());
                            assert(pool0 == old(db).bm.buffer_pool@);
                            let fb = find_block(pool0, block_id@);
                            assert(fb >= 0 && pool0[fb].pins < usize::MAX ==> r == Ok::<usize, DbError>(fb as usize));
                            if fb >= 0 {
                                assert(idx == fb);
                                assert(db.bm.buffer_pool@[idx as int].block_id == pool0[fb].block_id);
                                assert(pool0[fb].block_id matches Some(bid) && bid@ == block_id@);
                            } else {
                                assert(db.bm.buffer_pool@[idx as int].block_id matches Some(bb)
                                    && bb@ == block_id@);
                            }
                            self.lemma_pin_push_ok(*old(self), *old(db), *db, block_id@, idx);
                            lemma_find_block_unique(db.bm.buffer_pool@, block_id@, idx as int);
                            assert forall|j: int|
                                0 <= j < pool0.len() && j != find_block(
                                    db.bm.buffer_pool@,
                                    block_id@,
                                ) implies #[trigger] db.bm.buffer_pool@[j] == pool0[j] by {}
                        }
                        Ok(())
                    },
                }
            },
        }
    }


    /// Releases one of this transaction's pins on the block; the underlying
    /// pool pin is released only when the count returns to zero. A block
    /// this transaction has not pinned is left alone. No block's bytes
    /// change.
    pub fn unpin(&mut self, db: &mut Database, block_id: &BlockId)
        requires
            old(self).wf(*old(db)),
            old(db).wf(),
        ensures
            final(db).wf(),
            final(self).wf(*final(db)),
            final(self).txn_num == old(self).txn_num,
            final(self).concurrency == old(self).concurrency,
            final(db).lm == old(db).lm,
            final(db).fm == old(db).fm,
            final(db).next_txn == old(db).next_txn,
            final(db).bm.buffer_pool@.len() == old(db).bm.buffer_pool@.len(),
            forall|j: int|
                0 <= j < old(db).bm.buffer_pool@.len() ==> (
                #[trigger] final(db).bm.buffer_pool@[j]).contents == old(db).bm.buffer_pool@[j].contents
                    && final(db).bm.buffer_pool@[j].block_id == old(db).bm.buffer_pool@[j].block_id
                    && final(db).bm.buffer_pool@[j].txn == old(db).bm.buffer_pool@[j].txn
                    && final(db).bm.buffer_pool@[j].lsn == old(db).bm.buffer_pool@[j].lsn,
            forall|c: BlockIdView| #[trigger] final(db).cached_block(c) == old(db).cached_block(c),
            forall|c: BlockIdView|
                c != block_id@ ==> #[trigger] final(self).pins_block(c) == old(self).pins_block(c),
            ({
                let entries0 = old(self).buffer_list.entries@;
                let pool0 = old(db).bm.buffer_pool@;
                let e = find_entry(entries0, block_id@);
                if e == -1 {
                    final(self).buffer_list.entries@ == entries0 && final(db).bm.buffer_pool@
                        == pool0
                } else if entries0[e].2 > 1 {
                    final(self).buffer_list.entries@ == entries0.update(
                        e,
                        (entries0[e].0, entries0[e].1, (entries0[e].2 - 1) as usize),
                    ) && final(db).bm.buffer_pool@ == pool0
                } else {
                    final(self).buffer_list.entries@ == entries0.remove(e)
                        && final(db).bm.buffer_pool@ == pool0.update(
                        entries0[e].1 as int,
                        Buffer {
                            pins: (pool0[entries0[e].1 as int].pins - 1) as usize,
                            contents: pool0[entries0[e].1 as int].contents,
                            block_id: pool0[entries0[e].1 as int].block_id,
                            txn: pool0[entries0[e].1 as int].txn,
                            lsn: pool0[entries0[e].1 as int].lsn,
                        },
                    )
                }
            }),
    {
        let ghost pool0 = db.bm.buffer_pool@;
        let ghost entries0 = self.buffer_list.entries@;
        match self.buffer_list.lookup(block_id) {
            None => {
            },
            Some(i) => {
                let count = self.entries_count(i);
                if count > 1 {
                    let key = self.buffer_list.entries[i].0.clone();
                    let slot = self.buffer_list.entries[i].1;
                    self.buffer_list.entries[i] = (key, slot, count - 1);
                    proof {
                        assert forall|j: int|
                            0 <= j < entries0.len() implies (
                        #[trigger] self.buffer_list.entries@[j]).0@ == entries0[j].0@
                            && self.buffer_list.entries@[j].1 == entries0[j].1
                            && self.buffer_list.entries@[j].2 >= 1 by {
                            if j != i {
                                assert(self.buffer_list.entries@[j] == entries0[j]);
                            }
                        }
                        lemma_find_entry_same_blocks(entries0, self.buffer_list.entries@);
                    }
                } else {
                    let slot = self.buffer_list.entries[i].1;
                    db.bm.unpin(slot);
                    self.buffer_list.entries.remove(i);
                    proof {
                        let pool1 = db.bm.buffer_pool@;
                        let entries1 = self.buffer_list.entries@;
                        assert(db.bm.wf(db.fm, db.lm));
                        assert(forall|j: int|
                            0 <= j < pool0.len() && j != slot ==> #[trigger] pool1[j] == pool0[j]);
                        // distinct blocks force distinct slots, so the other
                        // entries keep their pins
                        assert forall|j: int|
                            0 <= j < entries1.len() implies (#[trigger] entries1[j]).1
                            < pool1.len() && (pool1[entries1[j].1 as int].block_id matches Some(bb)
                            && bb@ == entries1[j].0@) && pool1[entries1[j].1 as int].pins >= 1
                            && entries1[j].2 >= 1 by {
                            let j0 = if j < i {
                                j
                            } else {
                                j + 1
                            };
                            assert(entries1[j] == entries0[j0]);
                            let s2 = entries0[j0].1 as int;
                            assert(pool0[s2].block_id matches Some(bb) && bb@ == entries0[j0].0@);
                            if s2 == slot {
                                assert(entries0[j0].0@ != entries0[i as int].0@);
                                assert(pool0[slot as int].block_id matches Some(bc) && bc@
                                    == entries0[i as int].0@);
                            } else {
                                assert(pool1[s2] == pool0[s2]);
                            }
                        }
                        assert forall|x: int, y: int|
                            0 <= x < y < entries1.len() implies (#[trigger] entries1[x]).0@ != (
                        #[trigger] entries1[y]).0@ by {
                            let x0 = if x < i {
                                x
                            } else {
                                x + 1
                            };
                            let y0 = if y < i {
                                y
                            } else {
                                y + 1
                            };
                            assert(entries1[x] == entries0[x0]);
                            assert(entries1[y] == entries0[y0]);
                        }
                        // pin bookkeeping of other blocks is untouched
                        assert forall|c: BlockIdView|
                            c != block_id@ implies #[trigger] find_entry(entries1, c) >= 0
                            <==> find_entry(entries0, c) >= 0 by {
                            lemma_find_entry(entries0, c);
                            lemma_find_entry(entries1, c);
                            if find_entry(entries0, c) >= 0 {
                                let e = find_entry(entries0, c);
                                assert(entries0[e].0@ == c);
                                assert(e != i);
                                if e < i {
                                    assert(entries1[e].0@ == c);
                                } else {
                                    assert(entries1[e - 1].0@ == c);
                                }
                            }
                            if find_entry(entries1, c) >= 0 {
                                let e = find_entry(entries1, c);
                                let e0 = if e < i {
                                    e
                                } else {
                                    e + 1
                                };
                                assert(entries0[e0].0@ == c);
                            }
                        }
                    }
                }
            },
        }
        proof {
            assert forall|c: BlockIdView| #[trigger] db.cached_block(c) == old(db).cached_block(
                c,
            ) by {
                crate::buffermanager::lemma_find_block_same_ids(
                    old(db).bm.buffer_pool@,
                    db.bm.buffer_pool@,
                    c,
                );
                if find_block(old(db).bm.buffer_pool@, c) >= 0 {
                    crate::buffermanager::lemma_find_block(old(db).bm.buffer_pool@, c);
                }
            }
        }
    }

    /// Releases every pin this transaction holds.
    fn unpin_all(&mut self, db: &mut Database)
        requires
            old(self).wf(*old(db)),
            old(db).wf(),
        ensures
            final(db).wf(),
            final(self).wf(*final(db)),
            final(self).buffer_list.entries@.len() == 0,
            final(self).txn_num == old(self).txn_num,
            final(self).concurrency == old(self).concurrency,
            final(db).lm == old(db).lm,
            final(db).fm == old(db).fm,
            final(db).next_txn == old(db).next_txn,
            final(db).bm.buffer_pool@.len() == old(db).bm.buffer_pool@.len(),
            forall|j: int|
                0 <= j < old(db).bm.buffer_pool@.len() ==> (
                #[trigger] final(db).bm.buffer_pool@[j]).contents == old(db).bm.buffer_pool@[j].contents
                    && final(db).bm.buffer_pool@[j].block_id == old(db).bm.buffer_pool@[j].block_id
                    && final(db).bm.buffer_pool@[j].txn == old(db).bm.buffer_pool@[j].txn
                    && final(db).bm.buffer_pool@[j].lsn == old(db).bm.buffer_pool@[j].lsn,
            forall|c: BlockIdView| #[trigger] final(db).cached_block(c) == old(db).cached_block(c),
    {
        #[verifier::loop_isolation(false)]
        while self.buffer_list.entries.len() > 0
            invariant
                self.wf(*db),
                db.wf(),
                self.txn_num == old(self).txn_num,
                self.concurrency == old(self).concurrency,
                db.lm == old(db).lm,
                db.fm == old(db).fm,
                db.next_txn == old(db).next_txn,
                db.bm.buffer_pool@.len() == old(db).bm.buffer_pool@.len(),
                forall|j: int|
                    0 <= j < old(db).bm.buffer_pool@.len() ==> (
                    #[trigger] db.bm.buffer_pool@[j]).contents == old(db).bm.buffer_pool@[j].contents
                        && db.bm.buffer_pool@[j].block_id == old(db).bm.buffer_pool@[j].block_id
                        && db.bm.buffer_pool@[j].txn == old(db).bm.buffer_pool@[j].txn
                        && db.bm.buffer_pool@[j].lsn == old(db).bm.buffer_pool@[j].lsn,
                forall|c: BlockIdView| #[trigger] db.cached_block(c) == old(db).cached_block(c),
            decreases self.buffer_list.entries@.len(),
        {
            let last = self.buffer_list.entries.len() - 1;
            let key = self.buffer_list.entries[last].0.clone();
            let ghost entries_pre = self.buffer_list.entries@;
            let slot = self.buffer_list.entries[last].1;
            self.buffer_list.entries[last] = (key, slot, 1);
            proof {
                assert forall|j: int|
                    0 <= j < entries_pre.len() implies (
                #[trigger] self.buffer_list.entries@[j]).0@ == entries_pre[j].0@
                    && self.buffer_list.entries@[j].1 == entries_pre[j].1
                    && self.buffer_list.entries@[j].2 >= 1 by {
                    if j != last {
                        assert(self.buffer_list.entries@[j] == entries_pre[j]);
                    }
                }
            }
            let ghost entries_mid = self.buffer_list.entries@;
            let key2 = self.buffer_list.entries[last].0.clone();
            self.unpin(db, &key2);
            proof {
                lemma_find_entry(entries_mid, key2@);
                assert(find_entry(entries_mid, key2@) >= 0);
                assert(self.buffer_list.entries@.len() == entries_mid.len() - 1);
            }
        }
    }


    /// Reads the 4-byte integer at `offset` of the named block: takes a
    /// shared lock unless this transaction already holds one, pins the block
    /// (and keeps it pinned), and reads the engine's current view of it.
    pub fn get_int(&mut self, db: &mut Database, block_id: &BlockId, offset: i32) -> (r: Result<
        i32,
        DbError,
    >)
        requires
            old(self).wf(*old(db)),
            old(db).wf(),
            block_id@.file_name != old(db).lm.log_file@,
        ensures
            final(db).wf(),
            final(self).wf(*final(db)),
            final(self).txn_num == old(self).txn_num,
            final(db).lm == old(db).lm,
            final(db).next_txn == old(db).next_txn,
            final(db).fm.spec_block_size() == old(db).fm.spec_block_size(),
            forall|n: Seq<char>|
                final(db).fm.has_file(n) == old(db).fm.has_file(n) && final(db).fm.file_blocks(n)
                    == old(db).fm.file_blocks(n),
            forall|c: BlockIdView|
                old(self).pins_block(c) ==> final(self).pins_block(c) && final(db).cached_block(c)
                    == old(db).cached_block(c),
            r == (if offset < 0 {
                Err::<i32, DbError>(DbError::OutOfRange)
            } else if old(self).pin_result(*old(db), block_id@) is Err {
                Err(old(self).pin_result(*old(db), block_id@)->Err_0)
            } else if offset + 4 > old(db).fm.spec_block_size() {
                Err(DbError::OutOfRange)
            } else {
                Ok(page_i32_at(old(db).cached_block(block_id@), offset as int))
            }),
            r is Ok ==> final(self).pins_block(block_id@) && final(db).cached_block(block_id@)
                == old(db).cached_block(block_id@) && final(self).concurrency.descriptor(
                block_id@,
            ) != 0,
    {
        if offset < 0 {
            return Err(DbError::OutOfRange);
        }
        let d = self.concurrency.held(block_id);
        if d == 0 {
            match self.concurrency.acquire_s_lock(block_id) {
                Err(e) => {
                    proof {
                        assert(false);
                    }
                    return Err(e);
                },
                Ok(()) => (),
            }
        }
        match self.pin(db, block_id) {
            Err(e) => {
                return Err(e);
            },
            Ok(()) => (),
        }
        let i = match self.buffer_list.lookup(block_id) {
            Some(i) => i,
            None => {
                proof {
                    assert(false);
                }
                return Err(DbError::BufferUnavailable);
            },
        };
        let slot = self.buffer_list.entries[i].1;
        proof {
            let pool = db.bm.buffer_pool@;
            assert(pool[slot as int].block_id matches Some(bb) && bb@ == block_id@);
            lemma_find_block_unique(pool, block_id@, slot as int);
            db.fm.lemma_inv_facts();
        }
        match db.bm.buffer_pool[slot].get_int(offset as usize) {
            Some(v) => Ok(v),
            None => Err(DbError::OutOfRange),
        }
    }

    /// Reads the length-prefixed string at `offset` of the named block, as
    /// `get_int` reads an integer. Reports `OutOfRange` when the offset lies
    /// outside the block, and `CorruptLogRecord` never: bytes that are not
    /// valid UTF-8 also report `OutOfRange`.
    pub fn get_string(&mut self, db: &mut Database, block_id: &BlockId, offset: i32) -> (r: Result<
        String,
        DbError,
    >)
        requires
            old(self).wf(*old(db)),
            old(db).wf(),
            block_id@.file_name != old(db).lm.log_file@,
        ensures
            final(db).wf(),
            final(self).wf(*final(db)),
            final(self).txn_num == old(self).txn_num,
            final(db).lm == old(db).lm,
            final(db).next_txn == old(db).next_txn,
            final(db).fm.spec_block_size() == old(db).fm.spec_block_size(),
            forall|n: Seq<char>|
                final(db).fm.has_file(n) == old(db).fm.has_file(n) && final(db).fm.file_blocks(n)
                    == old(db).fm.file_blocks(n),
            forall|c: BlockIdView|
                old(self).pins_block(c) ==> final(self).pins_block(c) && final(db).cached_block(c)
                    == old(db).cached_block(c),
            ({
                let page = old(db).cached_block(block_id@);
                let readable = bytes_readable(page, offset as int) && vstd::utf8::valid_utf8(
                    page_bytes_at(page, offset as int),
                );
                if offset < 0 {
                    r == Err::<String, DbError>(DbError::OutOfRange)
                } else if old(self).pin_result(*old(db), block_id@) is Err {
                    r == Err::<String, DbError>(
                        old(self).pin_result(*old(db), block_id@)->Err_0,
                    )
                } else if !readable {
                    r == Err::<String, DbError>(DbError::OutOfRange)
                } else {
                    r is Ok && r->Ok_0@ == vstd::utf8::decode_utf8(
                        page_bytes_at(page, offset as int),
                    )
                }
            }),
            r is Ok ==> final(self).pins_block(block_id@) && final(db).cached_block(block_id@)
                == old(db).cached_block(block_id@) && final(self).concurrency.descriptor(
                block_id@,
            ) != 0,
    {
        if offset < 0 {
            return Err(DbError::OutOfRange);
        }
        let d = self.concurrency.held(block_id);
        if d == 0 {
            match self.concurrency.acquire_s_lock(block_id) {
                Err(e) => {
                    proof {
                        assert(false);
                    }
                    return Err(e);
                },
                Ok(()) => (),
            }
        }
        match self.pin(db, block_id) {
            Err(e) => {
                return Err(e);
            },
            Ok(()) => (),
        }
        let i = match self.buffer_list.lookup(block_id) {
            Some(i) => i,
            None => {
                proof {
                    assert(false);
                }
                return Err(DbError::BufferUnavailable);
            },
        };
        let slot = self.buffer_list.entries[i].1;
        proof {
            let pool = db.bm.buffer_pool@;
            assert(pool[slot as int].block_id matches Some(bb) && bb@ == block_id@);
            lemma_find_block_unique(pool, block_id@, slot as int);
        }
        match db.bm.buffer_pool[slot].get_string(offset as usize) {
            Some(v) => Ok(v),
            None => Err(DbError::OutOfRange),
        }
    }


    /// Writes a 4-byte integer at `offset` of the named block: takes an
    /// exclusive lock (a block this transaction has only read cannot be
    /// upgraded and fails with `LockTimeout`), pins the block, logs the
    /// pre-image as a `SetInt` undo record when `should_log` holds, writes
    /// the new value into the buffer, and records the modification with the
    /// record's LSN as the buffer's durability floor. `None` writes nothing.
    pub fn set_int(
        &mut self,
        db: &mut Database,
        block_id: &BlockId,
        offset: i32,
        val: Option<i32>,
        should_log: bool,
    ) -> (r: Result<(), DbError>)
        requires
            old(self).wf(*old(db)),
            old(db).wf(),
            block_id@.file_name != old(db).lm.log_file@,
            old(db).lm.latest_lsn < i32::MAX,
        ensures
            final(db).wf(),
            final(self).wf(*final(db)),
            final(self).txn_num == old(self).txn_num,
            final(db).next_txn == old(db).next_txn,
            final(db).lm.log_file == old(db).lm.log_file,
            final(db).fm.spec_block_size() == old(db).fm.spec_block_size(),
            forall|n: Seq<char>|
                n != old(db).lm.log_file@ ==> final(db).fm.has_file(n) == old(db).fm.has_file(n)
                    && final(db).fm.file_blocks(n) == old(db).fm.file_blocks(n),
            final(db).bm.buffer_pool@.len() == old(db).bm.buffer_pool@.len(),
            !should_log ==> final(db).lm == old(db).lm && forall|n: Seq<char>|
                final(db).fm.has_file(n) == old(db).fm.has_file(n) && final(db).fm.file_blocks(n)
                    == old(db).fm.file_blocks(n),
            match val {
                None => r == Ok::<(), DbError>(()) && final(db).lm == old(db).lm && forall|
                    c: BlockIdView,
                |
                    #[trigger] final(db).cached_block(c) == old(db).cached_block(c),
                Some(v) => {
                    &&& r == (if offset < 0 {
                        Err::<(), DbError>(DbError::OutOfRange)
                    } else if old(self).concurrency.descriptor(block_id@) >= 1 {
                        Err(DbError::LockTimeout)
                    } else if old(self).pin_result(*old(db), block_id@) is Err {
                        Err(old(self).pin_result(*old(db), block_id@)->Err_0)
                    } else if !(int_in_range(old(db).fm.spec_block_size() as int, offset as int)
                        && (should_log ==> block_id@.block_num <= i32::MAX && 32
                        + vstd::utf8::encode_utf8(block_id@.file_name).len() <= old(db).fm.spec_block_size())) {
                        Err(DbError::OutOfRange)
                    } else {
                        Ok(())
                    })
                    &&& r is Ok ==> {
                        &&& final(db).cached_block(block_id@) == crate::codec::splice(
                            old(db).cached_block(block_id@),
                            offset as int,
                            crate::codec::be_of_i32(v),
                        )
                        &&& final(self).pins_block(block_id@)
                        &&& final(self).concurrency.descriptor(block_id@) == -1
                        &&& forall|c: BlockIdView|
                            old(self).pins_block(c) && c != block_id@ ==> final(self).pins_block(c)
                                && final(db).cached_block(c) == old(db).cached_block(c)
                        &&& ({
                            let fb = find_block(final(db).bm.buffer_pool@, block_id@);
                            fb >= 0 && final(db).bm.buffer_pool@[fb].txn == Some(
                                old(self).txn_num,
                            ) && final(db).bm.buffer_pool@[fb].lsn == Some(
                                if should_log {
                                    final(db).lm.latest_lsn
                                } else {
                                    -1i32
                                },
                            )
                        })
                        &&& forall|j: int|
                            0 <= j < old(db).bm.buffer_pool@.len() && j != find_block(
                                final(db).bm.buffer_pool@,
                                block_id@,
                            ) ==> #[trigger] final(db).bm.buffer_pool@[j] == old(db).bm.buffer_pool@[j]
                        &&& if should_log {
                            final(db).lm.latest_lsn == old(db).lm.latest_lsn + 1 && final(db).lm.all_records(
                                final(db).fm,
                            ) == seq![
                                crate::logrecord::encode_set_int(
                                    old(self).txn_num,
                                    block_id@.file_name,
                                    block_id@.block_num as i32,
                                    offset,
                                    page_i32_at(old(db).cached_block(block_id@), offset as int),
                                ),
                            ] + old(db).lm.all_records(old(db).fm)
                        } else {
                            final(db).lm == old(db).lm
                        }
                    }
                    &&& r is Err ==> final(db).lm.latest_lsn == old(db).lm.latest_lsn
                },
            },
    {
        let v = match val {
            None => {
                return Ok(());
            },
            Some(v) => v,
        };
        if offset < 0 {
            return Err(DbError::OutOfRange);
        }
        let d = self.concurrency.held(block_id);
        proof {
            crate::concurrencymanager::lemma_find_lock(self.concurrency.lock_table@, block_id@);
        }
        if d > 0 {
            return Err(DbError::LockTimeout);
        }
        if d == 0 {
            match self.concurrency.acquire_x_lock(block_id) {
                Err(e) => {
                    return Err(e);
                },
                Ok(()) => (),
            }
        }
        match self.pin(db, block_id) {
            Err(e) => {
                return Err(e);
            },
            Ok(()) => (),
        }
        let i = match self.buffer_list.lookup(block_id) {
            Some(i) => i,
            None => {
                proof {
                    assert(false);
                }
                return Err(DbError::BufferUnavailable);
            },
        };
        let slot = self.buffer_list.entries[i].1;
        let ghost db_pin = *db;
        proof {
            let pool = db.bm.buffer_pool@;
            assert(pool[slot as int].block_id matches Some(bb) && bb@ == block_id@);
            lemma_find_block_unique(pool, block_id@, slot as int);
            db.fm.lemma_inv_facts();
        }
        let lsn: i32 = if should_log {
            let rm = RecoveryManager::new(self.txn_num);
            match rm.set_int(db, slot, offset) {
                Err(e) => {
                    return Err(e);
                },
                Ok(l) => l,
            }
        } else {
            -1
        };
        let ghost db_log = *db;
        proof {
            assert(self.wf(db_log));
            assert(db_log.cached_block(block_id@) == db_pin.cached_block(block_id@)) by {
                lemma_find_block_unique(db_pin.bm.buffer_pool@, block_id@, slot as int);
            }
        }
        let sr = db.bm.buffer_pool[slot].set_int(offset as usize, Some(v));
        match sr {
            Err(e) => {
                proof {
                    if should_log {
                        assert(false);
                    }
                    self.lemma_set_finish(db_log, *db, block_id@, slot as int);
                }
                return Err(e);
            },
            Ok(()) => (),
        }
        db.bm.buffer_pool[slot].set_modified(self.txn_num, lsn);
        proof {
            self.lemma_set_finish(db_log, *db, block_id@, slot as int);
            assert forall|c: BlockIdView|
                old(self).pins_block(c) && c != block_id@ implies self.pins_block(c)
                && db.cached_block(c) == old(db).cached_block(c) by {
                assert(db_pin.cached_block(c) == old(db).cached_block(c));
                assert(db_log.cached_block(c) == db_pin.cached_block(c)) by {
                    lemma_find_entry(self.buffer_list.entries@, c);
                    let e = find_entry(self.buffer_list.entries@, c);
                    let s2 = self.buffer_list.entries@[e].1 as int;
                    assert(db_pin.bm.buffer_pool@[s2].block_id matches Some(bb) && bb@ == c);
                    lemma_find_block_unique(db_pin.bm.buffer_pool@, c, s2);
                }
            }
            assert(db.cached_block(block_id@) == crate::codec::splice(
                old(db).cached_block(block_id@),
                offset as int,
                crate::codec::be_of_i32(v),
            ));
            lemma_find_block_unique(db.bm.buffer_pool@, block_id@, slot as int);
        }
        Ok(())
    }

    /// After a buffer write and marker update at the transaction's own slot,
    /// the engine and transaction stay well-formed and the views of other
    /// pinned blocks are untouched.
    proof fn lemma_set_finish(self, db_mid: Database, db1: Database, b: BlockIdView, slot: int)
        requires
            self.wf(db_mid),
            db_mid.wf(),
            db_mid.lm == db1.lm,
            db_mid.fm == db1.fm,
            db_mid.next_txn == db1.next_txn,
            db_mid.bm.buff_n_available == db1.bm.buff_n_available,
            0 <= slot < db_mid.bm.buffer_pool@.len(),
            db_mid.bm.buffer_pool@[slot].block_id matches Some(bb) && bb@ == b,
            db1.bm.buffer_pool@.len() == db_mid.bm.buffer_pool@.len(),
            forall|j: int|
                0 <= j < db_mid.bm.buffer_pool@.len() && j != slot
                    ==> #[trigger] db1.bm.buffer_pool@[j] == db_mid.bm.buffer_pool@[j],
            db1.bm.buffer_pool@[slot].block_id == db_mid.bm.buffer_pool@[slot].block_id,
            db1.bm.buffer_pool@[slot].pins == db_mid.bm.buffer_pool@[slot].pins,
            db1.bm.buffer_pool@[slot].contents@.len()
                == db_mid.bm.buffer_pool@[slot].contents@.len(),
            (db1.bm.buffer_pool@[slot].txn == Some(self.txn_num) && (
            db1.bm.buffer_pool@[slot].lsn matches Some(l) && -1 <= l <= db1.lm.latest_lsn)) || (
            db1.bm.buffer_pool@[slot].txn == db_mid.bm.buffer_pool@[slot].txn
                && db1.bm.buffer_pool@[slot].lsn == db_mid.bm.buffer_pool@[slot].lsn),
        ensures
            db1.wf(),
            self.wf(db1),
            forall|c: BlockIdView|
                self.pins_block(c) && c != b ==> db1.cached_block(c) == db_mid.cached_block(c),
            db1.cached_block(b) == db1.bm.buffer_pool@[slot].contents@,
            db_mid.cached_block(b) == db_mid.bm.buffer_pool@[slot].contents@,
    {
        let pool_mid = db_mid.bm.buffer_pool@;
        let pool1 = db1.bm.buffer_pool@;
        // the pool stays well-formed
        assert(count_unpinned(pool1) == count_unpinned(pool_mid)) by {
            lemma_count_unpinned_same_pins(pool_mid, pool1);
        }
        assert forall|j: int| 0 <= j < pool1.len() implies (#[trigger] pool1[j]).buf_wf(
            db1.fm,
            db1.lm,
        ) by {
            assert(pool_mid[j].buf_wf(db_mid.fm, db_mid.lm));
        }
        assert forall|x: int, y: int|
            0 <= x < y < pool1.len() && pool1[x].block_id is Some && pool1[y].block_id is Some implies (
        #[trigger] pool1[x].block_id)->Some_0@ != (#[trigger] pool1[y].block_id)->Some_0@ by {
            assert(pool1[x].block_id == pool_mid[x].block_id);
            assert(pool1[y].block_id == pool_mid[y].block_id);
        }
        // the transaction's entries still hold
        assert forall|i: int|
            0 <= i < self.buffer_list.entries@.len() implies (
        #[trigger] self.buffer_list.entries@[i]).1 < pool1.len() && (pool1[self.buffer_list.entries@[i].1 as int].block_id matches Some(bb)
            && bb@ == self.buffer_list.entries@[i].0@) && pool1[self.buffer_list.entries@[i].1 as int].pins
            >= 1 && self.buffer_list.entries@[i].2 >= 1 by {
            let s2 = self.buffer_list.entries@[i].1 as int;
            if s2 != slot {
                assert(pool1[s2] == pool_mid[s2]);
            }
        }
        // views of other pinned blocks
        lemma_find_block_unique(pool_mid, b, slot);
        lemma_find_block_unique(pool1, b, slot);
        assert forall|c: BlockIdView|
            self.pins_block(c) && c != b implies db1.cached_block(c) == db_mid.cached_block(
            c,
        ) by {
            lemma_find_entry(self.buffer_list.entries@, c);
            let e = find_entry(self.buffer_list.entries@, c);
            let s2 = self.buffer_list.entries@[e].1 as int;
            assert(pool_mid[s2].block_id matches Some(bb) && bb@ == c);
            assert(s2 != slot);
            assert(pool1[s2] == pool_mid[s2]);
            lemma_find_block_unique(pool_mid, c, s2);
            lemma_find_block_unique(pool1, c, s2);
        }
    }


    /// Writes a length-prefixed string at `offset` of the named block, as
    /// `set_int` writes an integer: exclusive lock, pin, pre-image logged as
    /// a `SetString` undo record when `should_log` holds, then the write and
    /// the modification marker. `None` writes nothing.
    pub fn set_string(
        &mut self,
        db: &mut Database,
        block_id: &BlockId,
        offset: i32,
        val: Option<String>,
        should_log: bool,
    ) -> (r: Result<(), DbError>)
        requires
            old(self).wf(*old(db)),
            old(db).wf(),
            block_id@.file_name != old(db).lm.log_file@,
            old(db).lm.latest_lsn < i32::MAX,
        ensures
            final(db).wf(),
            final(self).wf(*final(db)),
            final(self).txn_num == old(self).txn_num,
            final(db).next_txn == old(db).next_txn,
            final(db).lm.log_file == old(db).lm.log_file,
            final(db).fm.spec_block_size() == old(db).fm.spec_block_size(),
            forall|n: Seq<char>|
                n != old(db).lm.log_file@ ==> final(db).fm.has_file(n) == old(db).fm.has_file(n)
                    && final(db).fm.file_blocks(n) == old(db).fm.file_blocks(n),
            final(db).bm.buffer_pool@.len() == old(db).bm.buffer_pool@.len(),
            !should_log ==> final(db).lm == old(db).lm && forall|n: Seq<char>|
                final(db).fm.has_file(n) == old(db).fm.has_file(n) && final(db).fm.file_blocks(n)
                    == old(db).fm.file_blocks(n),
            match val {
                None => r == Ok::<(), DbError>(()) && final(db).lm == old(db).lm && forall|
                    c: BlockIdView,
                |
                    #[trigger] final(db).cached_block(c) == old(db).cached_block(c),
                Some(s) => {
                    &&& r == ({
                        let page0 = old(db).cached_block(block_id@);
                        let bs = old(db).fm.spec_block_size();
                        if offset < 0 {
                            Err::<(), DbError>(DbError::OutOfRange)
                        } else if offset + 4 + vstd::utf8::encode_utf8(s@).len() > bs {
                            Err(DbError::OutOfRange)
                        } else if old(self).concurrency.descriptor(block_id@) >= 1 {
                            Err(DbError::LockTimeout)
                        } else if old(self).pin_result(*old(db), block_id@) is Err {
                            Err(old(self).pin_result(*old(db), block_id@)->Err_0)
                        } else if should_log && !(bytes_readable(page0, offset as int)
                            && vstd::utf8::valid_utf8(page_bytes_at(page0, offset as int))
                            && block_id@.block_num <= i32::MAX && 36 + vstd::utf8::encode_utf8(
                            block_id@.file_name,
                        ).len() + page_bytes_at(page0, offset as int).len() <= bs) {
                            Err(DbError::OutOfRange)
                        } else {
                            Ok(())
                        }
                    })
                    &&& r is Ok ==> {
                        &&& final(db).cached_block(block_id@) == crate::codec::splice(
                            old(db).cached_block(block_id@),
                            offset as int,
                            len_prefixed(vstd::utf8::encode_utf8(s@)),
                        )
                        &&& final(self).pins_block(block_id@)
                        &&& final(self).concurrency.descriptor(block_id@) == -1
                        &&& forall|c: BlockIdView|
                            old(self).pins_block(c) && c != block_id@ ==> final(self).pins_block(c)
                                && final(db).cached_block(c) == old(db).cached_block(c)
                        &&& ({
                            let fb = find_block(final(db).bm.buffer_pool@, block_id@);
                            fb >= 0 && final(db).bm.buffer_pool@[fb].txn == Some(
                                old(self).txn_num,
                            ) && final(db).bm.buffer_pool@[fb].lsn == Some(
                                if should_log {
                                    final(db).lm.latest_lsn
                                } else {
                                    -1i32
                                },
                            )
                        })
                        &&& forall|j: int|
                            0 <= j < old(db).bm.buffer_pool@.len() && j != find_block(
                                final(db).bm.buffer_pool@,
                                block_id@,
                            ) ==> #[trigger] final(db).bm.buffer_pool@[j] == old(db).bm.buffer_pool@[j]
                        &&& if should_log {
                            final(db).lm.latest_lsn == old(db).lm.latest_lsn + 1 && final(db).lm.all_records(
                                final(db).fm,
                            ) == seq![
                                crate::logrecord::encode_set_string(
                                    old(self).txn_num,
                                    block_id@.file_name,
                                    block_id@.block_num as i32,
                                    offset,
                                    vstd::utf8::decode_utf8(
                                        page_bytes_at(
                                            old(db).cached_block(block_id@),
                                            offset as int,
                                        ),
                                    ),
                                ),
                            ] + old(db).lm.all_records(old(db).fm)
                        } else {
                            final(db).lm == old(db).lm
                        }
                    }
                    &&& r is Err ==> final(db).lm.latest_lsn == old(db).lm.latest_lsn
                },
            },
    {
        let s = match val {
            None => {
                return Ok(());
            },
            Some(s) => s,
        };
        if offset < 0 {
            return Err(DbError::OutOfRange);
        }
        let sb_len = s.as_str().as_bytes().len();
        proof {
            db.fm.lemma_inv_facts();
        }
        let bs = db.fm.block_size();
        if sb_len >= bs || (offset as u64) + 4 + (sb_len as u64) > (bs as u64) {
            return Err(DbError::OutOfRange);
        }
        let d = self.concurrency.held(block_id);
        proof {
            crate::concurrencymanager::lemma_find_lock(self.concurrency.lock_table@, block_id@);
        }
        if d > 0 {
            return Err(DbError::LockTimeout);
        }
        if d == 0 {
            match self.concurrency.acquire_x_lock(block_id) {
                Err(e) => {
                    proof {
                        assert(false);
                    }
                    return Err(e);
                },
                Ok(()) => (),
            }
        }
        match self.pin(db, block_id) {
            Err(e) => {
                return Err(e);
            },
            Ok(()) => (),
        }
        let i = match self.buffer_list.lookup(block_id) {
            Some(i) => i,
            None => {
                proof {
                    assert(false);
                }
                return Err(DbError::BufferUnavailable);
            },
        };
        let slot = self.buffer_list.entries[i].1;
        let ghost db_pin = *db;
        proof {
            let pool = db.bm.buffer_pool@;
            assert(pool[slot as int].block_id matches Some(bb) && bb@ == block_id@);
            lemma_find_block_unique(pool, block_id@, slot as int);
            db.fm.lemma_inv_facts();
        }
        let lsn: i32 = if should_log {
            let rm = RecoveryManager::new(self.txn_num);
            match rm.set_string(db, slot, offset) {
                Err(e) => {
                    return Err(e);
                },
                Ok(l) => l,
            }
        } else {
            -1
        };
        let ghost db_log = *db;
        proof {
            assert(self.wf(db_log));
            assert(db_log.cached_block(block_id@) == db_pin.cached_block(block_id@)) by {
                lemma_find_block_unique(db_pin.bm.buffer_pool@, block_id@, slot as int);
            }
        }
        let sr = db.bm.buffer_pool[slot].set_string(offset as usize, Some(s));
        match sr {
            Err(e) => {
                proof {
                    assert(false);
                }
                return Err(e);
            },
            Ok(()) => (),
        }
        db.bm.buffer_pool[slot].set_modified(self.txn_num, lsn);
        proof {
            self.lemma_set_finish(db_log, *db, block_id@, slot as int);
            assert forall|c: BlockIdView|
                old(self).pins_block(c) && c != block_id@ implies self.pins_block(c)
                && db.cached_block(c) == old(db).cached_block(c) by {
                assert(db_pin.cached_block(c) == old(db).cached_block(c));
                assert(db_log.cached_block(c) == db_pin.cached_block(c)) by {
                    lemma_find_entry(self.buffer_list.entries@, c);
                    let e = find_entry(self.buffer_list.entries@, c);
                    let s2 = self.buffer_list.entries@[e].1 as int;
                    assert(db_pin.bm.buffer_pool@[s2].block_id matches Some(bb) && bb@ == c);
                    lemma_find_block_unique(db_pin.bm.buffer_pool@, c, s2);
                }
            }
            assert(db.cached_block(block_id@) == crate::codec::splice(
                old(db).cached_block(block_id@),
                offset as int,
                len_prefixed(vstd::utf8::encode_utf8(s@)),
            ));
            lemma_find_block_unique(db.bm.buffer_pool@, block_id@, slot as int);
        }
        Ok(())
    }


    /// Commits: flushes this transaction's modified buffers (log first, per
    /// the WAL rule), makes the `Commit` record durable, then releases every
    /// lock and pin. The transaction is finished afterwards.
    pub fn commit(&mut self, db: &mut Database)
        requires
            old(self).wf(*old(db)),
            old(db).wf(),
            old(db).lm.latest_lsn < i32::MAX,
        ensures
            final(db).wf(),
            final(self).wf(*final(db)),
            final(self).txn_num == old(self).txn_num,
            final(self).buffer_list.entries@.len() == 0,
            forall|b: BlockIdView| final(self).concurrency.descriptor(b) == 0,
            final(db).next_txn == old(db).next_txn,
            final(db).lm.log_file == old(db).lm.log_file,
            final(db).lm.latest_lsn == old(db).lm.latest_lsn + 1,
            final(db).lm.last_lsn == final(db).lm.latest_lsn,
            final(db).lm.all_records(final(db).fm) == seq![
                crate::logrecord::encode_txn_only(crate::logrecord::COMMIT, old(self).txn_num),
            ] + old(db).lm.all_records(old(db).fm),
            durable_records(final(db).fm, final(db).lm.log_file@) == final(db).lm.all_records(
                final(db).fm,
            ),
            final(db).fm.spec_block_size() == old(db).fm.spec_block_size(),
            forall|n: Seq<char>| final(db).fm.has_file(n) == old(db).fm.has_file(n),
            forall|j: int|
                0 <= j < old(db).bm.buffer_pool@.len() && old(db).bm.buffer_pool@[j].txn == Some(
                    old(self).txn_num,
                ) ==> ((#[trigger] old(db).bm.buffer_pool@[j].block_id) matches Some(b) ==> final(db).fm.file_blocks(b@.file_name)[b@.block_num as int] == old(db).bm.buffer_pool@[j].contents@),
            forall|n: Seq<char>, k: int|
                n != old(db).lm.log_file@ && !crate::buffermanager::pool_writes(
                    old(db).bm.buffer_pool@,
                    old(self).txn_num,
                    n,
                    k,
                ) && 0 <= k < old(db).fm.file_blocks(n).len() ==> #[trigger] final(db).fm.file_blocks(n)[k] == old(db).fm.file_blocks(n)[k],
    {
        let rm = RecoveryManager::new(self.txn_num);
        rm.commit(db);
        proof {
            assert forall|i: int|
                0 <= i < self.buffer_list.entries@.len() implies (
            #[trigger] self.buffer_list.entries@[i]).1 < db.bm.buffer_pool@.len() && (
            db.bm.buffer_pool@[self.buffer_list.entries@[i].1 as int].block_id matches Some(bb)
                && bb@ == self.buffer_list.entries@[i].0@) && db.bm.buffer_pool@[self.buffer_list.entries@[i].1 as int].pins
                >= 1 && self.buffer_list.entries@[i].2 >= 1 by {
                let s2 = self.buffer_list.entries@[i].1 as int;
                assert(old(db).bm.buffer_pool@[s2].block_id matches Some(bb) && bb@
                    == self.buffer_list.entries@[i].0@);
            }
        }
        self.concurrency.release();
        self.unpin_all(db);
    }


    /// Applies one record's undo: restores the logged old value into the
    /// live buffer via a non-logging set, then unpins. Records that carry no
    /// pre-image, and records naming the log file itself, undo nothing.
    /// Applies one record's undo: restores the logged pre-image into the
    /// live buffer via a non-logging write, makes it durable, and releases
    /// the pin again. Records that carry no pre-image, name the log file
    /// itself, or carry a negative offset undo nothing. The write takes no
    /// new lock: a rollback undoes only blocks this transaction already
    /// holds exclusively, and recovery runs before any other transaction.
    #[verifier::rlimit(100)]
    #[verifier::spinoff_prover]
    pub fn apply_undo(&mut self, db: &mut Database, rec: &LogRecord) -> (r: Result<(), DbError>)
        requires
            old(self).wf(*old(db)),
            old(db).wf(),
            old(db).lm.last_lsn == old(db).lm.latest_lsn,
            old(db).unpinned_agree(),
        ensures
            final(db).wf(),
            final(db).unpinned_agree(),
            *final(self) == *old(self),
            final(self).wf(*final(db)),
            final(db).lm == old(db).lm,
            final(db).next_txn == old(db).next_txn,
            final(db).fm.spec_block_size() == old(db).fm.spec_block_size(),
            forall|n: Seq<char>|
                final(db).fm.has_file(n) == old(db).fm.has_file(n) && final(db).fm.file_blocks(n).len() == old(db).fm.file_blocks(n).len(),
            final(db).bm.buffer_pool@.len() == old(db).bm.buffer_pool@.len(),
            forall|j: int|
                0 <= j < old(db).bm.buffer_pool@.len() ==> (#[trigger] final(db).bm.buffer_pool@[j]).pins == old(db).bm.buffer_pool@[j].pins,
            forall|j: int|
                0 <= j < old(db).bm.buffer_pool@.len() && old(db).bm.buffer_pool@[j].txn is None
                    ==> (#[trigger] final(db).bm.buffer_pool@[j]).txn is None,
            ({
                let log = old(db).lm.log_file@;
                if !crate::recoverymanager::undo_writes(rec@, log) {
                    r == Ok::<(), DbError>(()) && *final(db) == *old(db)
                } else {
                    let t = crate::recoverymanager::rec_target(rec@);
                    let fits = match rec@ {
                        LogRecordView::SetInt { offset, .. } => offset + 4 <= old(db).fm.spec_block_size(),
                        LogRecordView::SetString { offset, value, .. } => offset + 4
                            + vstd::utf8::encode_utf8(value).len() <= old(db).fm.spec_block_size(),
                        _ => true,
                    };
                    let fb = find_block(old(db).bm.buffer_pool@, t);
                    let fu = crate::buffermanager::find_unpinned(old(db).bm.buffer_pool@);
                    &&& r == (if !fits {
                        Err::<(), DbError>(DbError::OutOfRange)
                    } else if fb >= 0 && old(db).bm.buffer_pool@[fb].pins == usize::MAX {
                        Err(DbError::BufferUnavailable)
                    } else if fb < 0 && fu < 0 {
                        Err(DbError::BufferUnavailable)
                    } else if fb < 0 && !(old(db).fm.has_file(t.file_name) && t.block_num < old(db).fm.file_blocks(t.file_name).len()) {
                        Err(DbError::BlockNotFound)
                    } else {
                        Ok(())
                    })
                    &&& r is Err ==> final(db).bm.buffer_pool@ == old(db).bm.buffer_pool@
                        && final(db).bm.buff_n_available == old(db).bm.buff_n_available && forall|
                        n: Seq<char>,
                    |
                        #[trigger] final(db).fm.file_blocks(n) == old(db).fm.file_blocks(n)
                    &&& r is Ok ==> {
                        &&& forall|c: BlockIdView|
                            c.file_name != log && c.block_num < old(db).fm.file_blocks(
                                c.file_name,
                            ).len() ==> #[trigger] final(db).cached_block(c)
                                == crate::recoverymanager::undo_apply(
                                old(db).cached_block(c),
                                rec@,
                                c,
                            )
                        &&& forall|n: Seq<char>|
                            n != t.file_name ==> #[trigger] final(db).fm.file_blocks(n) == old(db).fm.file_blocks(n)
                        &&& final(db).fm.file_blocks(t.file_name) == old(db).fm.file_blocks(
                            t.file_name,
                        ).update(t.block_num as int, final(db).cached_block(t))
                    }
                }
            }),
    {
        let u_block: BlockId;
        let u_offset: i32;
        match rec {
            LogRecord::SetInt(u) => {
                u_block = u.block_id.clone();
                u_offset = u.offset;
            },
            LogRecord::SetString(u) => {
                u_block = u.block_id.clone();
                u_offset = u.offset;
            },
            _ => {
                return Ok(());
            },
        }
        if u_offset < 0 {
            return Ok(());
        }
        let to_log = {
            let f = u_block.file_name();
            f == db.lm.log_file
        };
        if to_log {
            return Ok(());
        }
        proof {
            db.fm.lemma_inv_facts();
        }
        let bs = db.fm.block_size();
        let fits = match rec {
            LogRecord::SetInt(_) => u_offset as u64 + 4 <= bs as u64,
            LogRecord::SetString(u) => {
                let vlen = u.value.as_str().as_bytes().len();
                vlen < bs && (u_offset as u64) + 4 + (vlen as u64) <= bs as u64
            },
            _ => true,
        };
        if !fits {
            return Err(DbError::OutOfRange);
        }
        let ghost pool0 = db.bm.buffer_pool@;
        let nb = db.bm.buffer_pool.len();
        proof {
            assert(pool0.len() == nb);
            lemma_find_block(pool0, u_block@);
            crate::buffermanager::lemma_find_unpinned(pool0);
        }
        let slot = match db.bm.pin(&mut db.fm, &db.lm, &u_block) {
            Err(e) => {
                return Err(e);
            },
            Ok(slot) => slot,
        };
        let ghost db_pin = *db;
        proof {
            assert((slot as int) < db.bm.buffer_pool@.len());
            let fb = find_block(pool0, u_block@);
            if fb >= 0 {
                assert(slot == fb);
                assert(db.bm.buffer_pool@[slot as int].block_id == pool0[fb].block_id);
            }
            assert(db.bm.buffer_pool@[slot as int].block_id matches Some(bb) && bb@ == u_block@);
            assert(db.bm.buffer_pool@[slot as int].buf_wf(db.fm, db.lm));
            assert(db.bm.buffer_pool@[slot as int].contents@.len() == db.fm.spec_block_size());
        }
        let sr = match rec {
            LogRecord::SetInt(u) => db.bm.buffer_pool[slot].set_int(
                u_offset as usize,
                Some(u.value),
            ),
            LogRecord::SetString(u) => {
                let v = u.value.clone();
                db.bm.buffer_pool[slot].set_string(u_offset as usize, Some(v))
            },
            _ => Ok(()),
        };
        proof {
            assert(sr is Ok);
        }
        db.bm.buffer_pool[slot].set_modified(self.txn_num, -1);
        let ghost db_set = *db;
        proof {
            assert(db.bm.buffer_pool@[slot as int].buf_wf(db.fm, db.lm));
        }
        db.bm.buffer_pool[slot].flush(&mut db.fm, &mut db.lm);
        let ghost db_flushed = *db;
        proof {
            assert(db.bm.buffer_pool@[slot as int].pins > 0);
            assert(db.bm.buff_n_available == count_unpinned(db.bm.buffer_pool@)) by {
                lemma_count_unpinned_same_pins(db_pin.bm.buffer_pool@, db.bm.buffer_pool@);
            }
        }
        db.bm.unpin(slot);
        proof {
            let t = u_block@;
            let log = old(db).lm.log_file@;
            let pool0 = old(db).bm.buffer_pool@;
            let pool1 = db.bm.buffer_pool@;
            let sl = slot as int;
            lemma_find_block(pool0, t);
            crate::buffermanager::lemma_find_unpinned(pool0);
            // only the one slot changed, and its pin count is back
            assert(forall|j: int|
                0 <= j < pool0.len() && j != sl ==> #[trigger] pool1[j] == pool0[j]);
            assert(pool1[sl].pins == pool0[sl].pins);
            assert forall|j: int|
                0 <= j < pool0.len() implies (#[trigger] pool1[j]).pins == pool0[j].pins by {}
            // the slot holds the target, uniquely, in every state
            assert(pool1[sl].block_id matches Some(bb) && bb@ == t);
            lemma_find_block_unique(pool1, t, sl);
            lemma_find_block_unique(db_pin.bm.buffer_pool@, t, sl);
            // the transaction's entries still name pinned slots
            assert forall|i: int|
                0 <= i < self.buffer_list.entries@.len() implies (
            #[trigger] self.buffer_list.entries@[i]).1 < pool1.len() && (pool1[self.buffer_list.entries@[i].1 as int].block_id matches Some(bb)
                && bb@ == self.buffer_list.entries@[i].0@) && pool1[self.buffer_list.entries@[i].1 as int].pins
                >= 1 && self.buffer_list.entries@[i].2 >= 1 by {
                let s2 = self.buffer_list.entries@[i].1 as int;
                assert(pool0[s2].block_id matches Some(bb) && bb@
                    == self.buffer_list.entries@[i].0@);
                if s2 != sl {
                    assert(pool1[s2] == pool0[s2]);
                }
            }
            // the bytes the engine sees follow the undo's effect
            assert(db.cached_block(t) == pool1[sl].contents@);
            assert forall|c: BlockIdView|
                c.file_name != log && c.block_num < old(db).fm.file_blocks(c.file_name).len()
                implies #[trigger] db.cached_block(c) == crate::recoverymanager::undo_apply(
                old(db).cached_block(c),
                rec@,
                c,
            ) by {
                if c == t {
                    if find_block(pool0, t) >= 0 {
                        assert(old(db).cached_block(t) == pool0[find_block(pool0, t)].contents@);
                        assert(db_pin.bm.buffer_pool@[sl].contents@ == old(db).cached_block(t));
                    } else {
                        assert(db_pin.bm.buffer_pool@[sl].contents@ == old(db).cached_block(t));
                    }
                    assert(old(db).cached_block(t).len() == old(db).fm.spec_block_size());
                    match rec@ {
                        LogRecordView::SetInt { offset, value, .. } => {
                            assert(offset == u_offset as int);
                            assert((value as i32) == value);
                            assert(pool1[sl].contents@ == crate::codec::splice(
                                db_pin.bm.buffer_pool@[sl].contents@,
                                u_offset as int,
                                crate::codec::be_of_i32((value as i32)),
                            ));
                            assert(crate::recoverymanager::undo_apply(
                                old(db).cached_block(c),
                                rec@,
                                c,
                            ) == crate::codec::splice(
                                old(db).cached_block(c),
                                offset,
                                crate::codec::be_of_i32((value as i32)),
                            ));
                            assert(db.cached_block(c) == crate::recoverymanager::undo_apply(
                                old(db).cached_block(c),
                                rec@,
                                c,
                            ));
                        },
                        LogRecordView::SetString { offset, value, .. } => {
                            assert(offset == u_offset as int);
                            assert(pool1[sl].contents@ == crate::codec::splice(
                                db_pin.bm.buffer_pool@[sl].contents@,
                                u_offset as int,
                                len_prefixed(vstd::utf8::encode_utf8(value)),
                            ));
                            assert(crate::recoverymanager::undo_apply(
                                old(db).cached_block(c),
                                rec@,
                                c,
                            ) == crate::codec::splice(
                                old(db).cached_block(c),
                                offset,
                                len_prefixed(vstd::utf8::encode_utf8(value)),
                            ));
                            assert(db.cached_block(c) == crate::recoverymanager::undo_apply(
                                old(db).cached_block(c),
                                rec@,
                                c,
                            ));
                        },
                        _ => {},
                    }
                } else {
                    // some other block: its bytes are untouched
                    lemma_find_block(pool0, c);
                    lemma_find_block(pool1, c);
                    let f0 = find_block(pool0, c);
                    if f0 >= 0 {
                        if f0 == sl {
                            // the slot held `c` and was reassigned: it was
                            // unpinned, so it agreed with the store
                            assert(pool0[sl].pins == 0);
                            assert(old(db).cached_block(c) == old(db).fm.file_blocks(
                                c.file_name,
                            )[c.block_num as int]);
                            assert forall|j: int|
                                0 <= j < pool1.len() implies !((#[trigger] pool1[j].block_id)
                                matches Some(bb) && bb@ == c) by {
                                if j != sl {
                                    assert(pool1[j] == pool0[j]);
                                    if pool0[j].block_id matches Some(bb) && bb@ == c {
                                        assert(false);
                                    }
                                }
                            }
                            lemma_find_block(pool1, c);
                            assert(find_block(pool1, c) == -1);
                            assert(db.cached_block(c) == db.fm.file_blocks(c.file_name)[c.block_num as int]);
                        } else {
                            assert(pool1[f0] == pool0[f0]);
                            lemma_find_block_unique(pool0, c, f0);
                            lemma_find_block_unique(pool1, c, f0);
                        }
                    } else {
                        assert forall|j: int|
                            0 <= j < pool1.len() implies !((#[trigger] pool1[j].block_id)
                            matches Some(bb) && bb@ == c) by {
                            if j != sl {
                                assert(pool1[j] == pool0[j]);
                                if pool0[j].block_id matches Some(bb) && bb@ == c {
                                    assert(false);
                                }
                            }
                        }
                        lemma_find_block(pool1, c);
                        assert(find_block(pool1, c) == -1);
                    }
                    if c.file_name == t.file_name {
                        assert(c.block_num != t.block_num);
                        assert(db.fm.file_blocks(c.file_name)[c.block_num as int] == old(db).fm.file_blocks(c.file_name)[c.block_num as int]);
                    } else {
                        assert(db.fm.file_blocks(c.file_name) == old(db).fm.file_blocks(c.file_name));
                    }
                    assert(db.cached_block(c) == old(db).cached_block(c));
                    assert(crate::recoverymanager::undo_apply(old(db).cached_block(c), rec@, c)
                        == old(db).cached_block(c)) by {
                        match rec@ {
                            LogRecordView::SetInt { file_name, block_num, .. } => {
                                if file_name == c.file_name && block_num == c.block_num as int {
                                    assert(c == t);
                                }
                            },
                            LogRecordView::SetString { file_name, block_num, .. } => {
                                if file_name == c.file_name && block_num == c.block_num as int {
                                    assert(c == t);
                                }
                            },
                            _ => {},
                        }
                    }
                }
            }
            // durable effect: the target block was written through
            assert(db.fm.file_blocks(t.file_name) == old(db).fm.file_blocks(t.file_name).update(
                t.block_num as int,
                db.cached_block(t),
            ));
            // nothing unpinned is left dirty
            assert forall|j: int|
                0 <= j < pool1.len() implies ((#[trigger] pool1[j]).pins == 0 ==> match pool1[j].block_id {
                Some(b) => pool1[j].contents@ == db.fm.file_blocks(b@.file_name)[b@.block_num as int],
                None => true,
            }) by {
                if j != sl {
                    assert(pool1[j] == pool0[j]);
                    let bo = pool0[j].block_id;
                    if bo is Some {
                        let bv = bo->Some_0@;
                        assert(bv != t);
                        assert(db.fm.file_blocks(bv.file_name)[bv.block_num as int]
                            == old(db).fm.file_blocks(bv.file_name)[bv.block_num as int]);
                    }
                }
            }
        }
        Ok(())
    }


    /// Rolls this transaction back: undoes its writes newest-first down to
    /// its `Start` record (`scan_rollback` is the exact statement), appends
    /// a durable `Rollback` record, then releases every lock and pin. The
    /// transaction is finished afterwards. Requires that nothing unpinned is
    /// dirty, which the engine's discipline keeps: every write pins its
    /// block until commit or rollback flushes it.
    pub fn rollback(&mut self, db: &mut Database) -> (r: Result<(), DbError>)
        requires
            old(self).wf(*old(db)),
            old(db).wf(),
            old(db).lm.latest_lsn < i32::MAX,
            old(db).unpinned_agree(),
        ensures
            final(db).wf(),
            final(self).wf(*final(db)),
            final(self).txn_num == old(self).txn_num,
            final(db).next_txn == old(db).next_txn,
            final(db).lm.log_file == old(db).lm.log_file,
            final(db).fm.spec_block_size() == old(db).fm.spec_block_size(),
            forall|n: Seq<char>| final(db).fm.has_file(n) == old(db).fm.has_file(n),
            r is Ok ==> final(self).buffer_list.entries@.len() == 0 && (forall|b: BlockIdView|
                final(self).concurrency.descriptor(b) == 0) && final(db).lm.latest_lsn == old(db).lm.latest_lsn + 1 && final(db).lm.last_lsn == final(db).lm.latest_lsn && final(db).lm.all_records(final(db).fm) == seq![
                crate::logrecord::encode_txn_only(crate::logrecord::ROLLBACK, old(self).txn_num),
            ] + old(db).lm.all_records(old(db).fm) && durable_records(
                final(db).fm,
                final(db).lm.log_file@,
            ) == final(db).lm.all_records(final(db).fm),
            r is Ok ==> forall|c: BlockIdView|
                c.file_name != old(db).lm.log_file@ && c.block_num < old(db).fm.file_blocks(
                    c.file_name,
                ).len() ==> #[trigger] final(db).cached_block(c)
                    == crate::recoverymanager::scan_rollback(
                    old(db).lm.all_records(old(db).fm),
                    old(self).txn_num as int,
                    c,
                    old(db).cached_block(c),
                ),
    {
        let rm = RecoveryManager::new(self.txn_num);
        match rm.rollback(self, db) {
            Err(e) => {
                return Err(e);
            },
            Ok(()) => (),
        }
        let ghost db_rm = *db;
        self.concurrency.release();
        self.unpin_all(db);
        proof {
            assert forall|c: BlockIdView|
                c.file_name != old(db).lm.log_file@ && c.block_num < old(db).fm.file_blocks(
                    c.file_name,
                ).len() implies #[trigger] db.cached_block(c)
                == crate::recoverymanager::scan_rollback(
                old(db).lm.all_records(old(db).fm),
                old(self).txn_num as int,
                c,
                old(db).cached_block(c),
            ) by {
                assert(db.cached_block(c) == db_rm.cached_block(c));
            }
        }
        Ok(())
    }

    /// Runs crash recovery at startup, over a fresh pool, using this
    /// transaction: every `Set` record of an unfinished transaction, newest
    /// first back to the last `Checkpoint`, has its logged pre-image
    /// restored and made durable (`scan_undo` is the exact statement), then
    /// a durable `Checkpoint` record closes recovery and this transaction's
    /// locks and pins are released. Success is owed whenever every such
    /// undo names an existing block and fits it (`scan_undo_ok`). When the
    /// newest durable record is already a `Checkpoint`, no data block and no
    /// buffer changes: running recovery twice mutates nothing further.
    pub fn recover(&mut self, db: &mut Database) -> (r: Result<(), DbError>)
        requires
            old(self).wf(*old(db)),
            old(db).wf(),
            old(db).lm.latest_lsn < i32::MAX,
            old(db).unpinned_agree(),
            old(db).bm.buffer_pool@.len() >= 1,
            forall|j: int|
                0 <= j < old(db).bm.buffer_pool@.len() ==> (#[trigger] old(db).bm.buffer_pool@[j]).pins == 0,
            forall|j: int|
                0 <= j < old(db).bm.buffer_pool@.len() ==> (#[trigger] old(db).bm.buffer_pool@[j]).txn is None,
        ensures
            final(db).wf(),
            final(self).wf(*final(db)),
            final(self).txn_num == old(self).txn_num,
            final(db).next_txn == old(db).next_txn,
            final(db).lm.log_file == old(db).lm.log_file,
            final(db).fm.spec_block_size() == old(db).fm.spec_block_size(),
            forall|n: Seq<char>| final(db).fm.has_file(n) == old(db).fm.has_file(n),
            crate::recoverymanager::scan_undo_ok(
                old(db).lm.all_records(old(db).fm),
                Set::empty(),
                old(db).fm,
                old(db).lm.log_file@,
            ) ==> r is Ok,
            r is Ok ==> final(self).buffer_list.entries@.len() == 0 && (forall|b: BlockIdView|
                final(self).concurrency.descriptor(b) == 0) && final(db).lm.latest_lsn == old(db).lm.latest_lsn + 1 && final(db).lm.last_lsn == final(db).lm.latest_lsn && final(db).lm.all_records(final(db).fm) == seq![crate::logrecord::encode_checkpoint()] + old(db).lm.all_records(old(db).fm) && durable_records(
                final(db).fm,
                final(db).lm.log_file@,
            ) == final(db).lm.all_records(final(db).fm),
            r is Ok ==> forall|c: BlockIdView|
                c.file_name != old(db).lm.log_file@ && c.block_num < old(db).fm.file_blocks(
                    c.file_name,
                ).len() ==> #[trigger] final(db).cached_block(c)
                    == crate::recoverymanager::scan_undo(
                    old(db).lm.all_records(old(db).fm),
                    Set::empty(),
                    c,
                    old(db).cached_block(c),
                ),
            ({
                let all0 = old(db).lm.all_records(old(db).fm);
                let pool0 = old(db).bm.buffer_pool@;
                (r is Ok && all0.len() > 0 && crate::logrecord::decode_record(all0[0]) == Some(
                    LogRecordView::Checkpoint,
                )) ==> ((forall|n: Seq<char>|
                    n != old(db).lm.log_file@ ==> #[trigger] final(db).fm.file_blocks(n) == old(db).fm.file_blocks(n)) && (forall|j: int|
                    0 <= j < pool0.len() ==> (#[trigger] final(db).bm.buffer_pool@[j]).contents
                        == pool0[j].contents && final(db).bm.buffer_pool@[j].block_id
                        == pool0[j].block_id && final(db).bm.buffer_pool@[j].txn == pool0[j].txn
                        && final(db).bm.buffer_pool@[j].lsn == pool0[j].lsn))
            }),
    {
        let rm = RecoveryManager::new(self.txn_num);
        let ghost pool0 = db.bm.buffer_pool@;
        match rm.recover(self, db) {
            Err(e) => {
                return Err(e);
            },
            Ok(()) => (),
        }
        let ghost db_rm = *db;
        self.concurrency.release();
        self.unpin_all(db);
        proof {
            assert forall|j: int|
                0 <= j < pool0.len() implies (#[trigger] db.bm.buffer_pool@[j]).contents
                == db_rm.bm.buffer_pool@[j].contents && db.bm.buffer_pool@[j].block_id
                == db_rm.bm.buffer_pool@[j].block_id && db.bm.buffer_pool@[j].txn
                == db_rm.bm.buffer_pool@[j].txn && db.bm.buffer_pool@[j].lsn
                == db_rm.bm.buffer_pool@[j].lsn by {}
            assert forall|c: BlockIdView|
                c.file_name != old(db).lm.log_file@ && c.block_num < old(db).fm.file_blocks(
                    c.file_name,
                ).len() implies #[trigger] db.cached_block(c)
                == crate::recoverymanager::scan_undo(
                old(db).lm.all_records(old(db).fm),
                Set::empty(),
                c,
                old(db).cached_block(c),
            ) by {
                assert(db.cached_block(c) == db_rm.cached_block(c));
            }
        }
        Ok(())
    }

    /// The number of blocks of the named file, or absent when the file does
    /// not exist.
    pub fn size(&self, db: &Database, file_name: &str) -> (r: Option<usize>)
        ensures
            match r {
                Some(n) => db.fm.has_file(file_name@) && n == db.fm.file_blocks(file_name@).len(),
                None => !db.fm.has_file(file_name@),
            },
    {
        db.fm.length(file_name)
    }

    /// Extends the named data file by one zero-filled block and returns its
    /// id.
    pub fn append(&mut self, db: &mut Database, file_name: &str) -> (r: BlockId)
        requires
            old(self).wf(*old(db)),
            old(db).wf(),
            file_name@ != old(db).lm.log_file@,
        ensures
            final(db).wf(),
            final(self).wf(*final(db)),
            *final(self) == *old(self),
            final(db).lm == old(db).lm,
            final(db).bm == old(db).bm,
            final(db).next_txn == old(db).next_txn,
            r@.file_name == file_name@,
            r@.block_num == old(db).fm.file_blocks(file_name@).len(),
            final(db).fm.has_file(file_name@),
            final(db).fm.file_blocks(file_name@) == old(db).fm.file_blocks(file_name@).push(
                crate::filemanager::zero_block(old(db).fm.spec_block_size() as int),
            ),
            forall|n: Seq<char>|
                n != file_name@ ==> final(db).fm.has_file(n) == old(db).fm.has_file(n) && final(db).fm.file_blocks(n) == old(db).fm.file_blocks(n),
    {
        proof {
            db.fm.lemma_inv_facts();
        }
        let r = db.fm.append(file_name);
        proof {
            assert forall|j: int|
                0 <= j < db.bm.buffer_pool@.len() implies (#[trigger] db.bm.buffer_pool@[j]).buf_wf(
                db.fm,
                db.lm,
            ) by {
                assert(old(db).bm.buffer_pool@[j].buf_wf(old(db).fm, old(db).lm));
            }
            assert forall|i: int|
                0 <= i < self.buffer_list.entries@.len() implies (
            #[trigger] self.buffer_list.entries@[i]).1 < db.bm.buffer_pool@.len() && (
            db.bm.buffer_pool@[self.buffer_list.entries@[i].1 as int].block_id matches Some(bb)
                && bb@ == self.buffer_list.entries@[i].0@) && db.bm.buffer_pool@[self.buffer_list.entries@[i].1 as int].pins
                >= 1 && self.buffer_list.entries@[i].2 >= 1 by {
                assert(old(db).bm.buffer_pool@[self.buffer_list.entries@[i].1 as int].block_id
                    matches Some(bb) && bb@ == self.buffer_list.entries@[i].0@);
            }
        }
        r
    }

    /// The fixed block size of the engine's store.
    pub fn block_size(&self, db: &Database) -> (r: usize)
        ensures
            r == db.fm.spec_block_size(),
    {
        db.fm.block_size()
    }

    /// The count of unpinned buffer slots.
    pub fn available_buffers(&self, db: &Database) -> (r: usize)
        ensures
            r == db.bm.buff_n_available,
    {
        db.bm.available_buffers()
    }

    /// The pin count of entry `i`.
    fn entries_count(&self, i: usize) -> (r: usize)
        requires
            i < self.buffer_list.entries@.len(),
        ensures
            r == self.buffer_list.entries@[i as int].2,
    {
        self.buffer_list.entries[i].2
    }

    /// After a fresh pool pin and a pushed entry, the transaction and
    /// engine are well-formed and no pinned block changed its bytes.
    proof fn lemma_pin_push_ok(
        self,
        pre: Transaction,
        db0: Database,
        db1: Database,
        b: BlockIdView,
        idx: usize,
    )
        requires
            pre.wf(db0),
            db0.wf(),
            db1.lm == db0.lm,
            db1.fm.spec_block_size() == db0.fm.spec_block_size(),
            forall|n: Seq<char>|
                db1.fm.has_file(n) == db0.fm.has_file(n) && db1.fm.file_blocks(n)
                    == db0.fm.file_blocks(n),
            db1.bm.wf(db1.fm, db1.lm),
            db1.bm.buffer_pool@.len() == db0.bm.buffer_pool@.len(),
            find_entry(pre.buffer_list.entries@, b) == -1,
            idx < db1.bm.buffer_pool@.len(),
            db1.bm.buffer_pool@[idx as int].block_id matches Some(bb) && bb@ == b,
            db1.bm.buffer_pool@[idx as int].pins >= 1,
            forall|j: int|
                0 <= j < db0.bm.buffer_pool@.len() && j != idx ==> #[trigger] db1.bm.buffer_pool@[j]
                    == db0.bm.buffer_pool@[j],
            find_block(db0.bm.buffer_pool@, b) >= 0 ==> find_block(db0.bm.buffer_pool@, b)
                == idx && db1.bm.buffer_pool@[idx as int].contents == db0.bm.buffer_pool@[idx as int].contents
                && db1.bm.buffer_pool@[idx as int].block_id == db0.bm.buffer_pool@[idx as int].block_id,
            find_block(db0.bm.buffer_pool@, b) == -1 ==> db0.bm.buffer_pool@[idx as int].pins == 0
                && db1.bm.buffer_pool@[idx as int].contents@ == db0.fm.file_blocks(b.file_name)[b.block_num as int],
            self.txn_num == pre.txn_num,
            self.concurrency == pre.concurrency,
            self.buffer_list.entries@.len() == pre.buffer_list.entries@.len() + 1,
            forall|j: int|
                0 <= j < pre.buffer_list.entries@.len() ==> #[trigger] self.buffer_list.entries@[j]
                    == pre.buffer_list.entries@[j],
            self.buffer_list.entries@.last().0@ == b,
            self.buffer_list.entries@.last().1 == idx,
            self.buffer_list.entries@.last().2 == 1,
        ensures
            self.wf(db1),
            self.pins_block(b),
            db1.cached_block(b) == db0.cached_block(b),
            forall|c: BlockIdView|
                pre.pins_block(c) ==> self.pins_block(c) && db1.cached_block(c)
                    == db0.cached_block(c),
    {
        let entries0 = pre.buffer_list.entries@;
        let entries1 = self.buffer_list.entries@;
        let pool0 = db0.bm.buffer_pool@;
        let pool1 = db1.bm.buffer_pool@;
        lemma_find_entry(entries0, b);
        lemma_find_block(pool0, b);
        lemma_find_block_unique(pool1, b, idx as int);
        assert(forall|j: int| 0 <= j < entries0.len() ==> entries1[j] == entries0[j]);
        // the transaction invariant
        assert forall|i: int|
            0 <= i < entries1.len() implies (#[trigger] entries1[i]).1 < pool1.len() && (
        pool1[entries1[i].1 as int].block_id matches Some(bb) && bb@ == entries1[i].0@)
            && pool1[entries1[i].1 as int].pins >= 1 && entries1[i].2 >= 1 by {
            if i < entries0.len() {
                assert(entries1[i] == entries0[i]);
                let slot = entries0[i].1 as int;
                assert(pool0[slot].block_id matches Some(bb) && bb@ == entries0[i].0@);
                if slot != idx {
                    assert(pool1[slot] == pool0[slot]);
                } else {
                    assert(pool0[idx as int].pins > 0);
                }
            }
        }
        assert forall|i: int, j: int|
            0 <= i < j < entries1.len() implies (#[trigger] entries1[i]).0@ != (
        #[trigger] entries1[j]).0@ by {
            if j == entries0.len() {
                lemma_find_entry(entries0, b);
                assert(entries0[i].0@ != b);
            }
        }
        // views of pinned blocks are unchanged
        assert forall|c: BlockIdView|
            pre.pins_block(c) implies self.pins_block(c) && db1.cached_block(c)
            == db0.cached_block(c) by {
            lemma_find_entry(entries0, c);
            lemma_find_entry_same_prefix(entries0, entries1, c);
            let e = find_entry(entries0, c);
            let slot = entries0[e].1 as int;
            assert(pool0[slot].block_id matches Some(bb) && bb@ == c);
            lemma_find_block_unique(pool0, c, slot);
            if slot == idx {
                assert(pool0[idx as int].pins > 0);
                assert(find_block(pool0, b) >= 0);
                assert(pool1[slot].block_id == pool0[slot].block_id);
                assert(pool1[slot].contents == pool0[slot].contents);
                lemma_find_block_unique(pool1, c, slot);
            } else {
                assert(pool1[slot] == pool0[slot]);
                lemma_find_block_unique(pool1, c, slot);
            }
        }
        // the new block's view
        if find_block(pool0, b) >= 0 {
            assert(db0.cached_block(b) == pool0[idx as int].contents@);
            assert(db1.cached_block(b) == pool1[idx as int].contents@);
        } else {
            assert(db0.cached_block(b) == db0.fm.file_blocks(b.file_name)[b.block_num as int]);
            assert(db1.cached_block(b) == pool1[idx as int].contents@);
        }
        lemma_find_entry_same_prefix(entries0, entries1, b);
    }
}

/// Entries with equal blocks find equally.
proof fn lemma_find_entry_same_blocks(
    a: Seq<(BlockId, usize, usize)>,
    b: Seq<(BlockId, usize, usize)>,
)
    requires
        a.len() == b.len(),
        forall|j: int| 0 <= j < a.len() ==> (#[trigger] a[j].0)@ == (#[trigger] b[j].0)@,
    ensures
        forall|c: BlockIdView| #[trigger] find_entry(a, c) == find_entry(b, c),
    decreases a.len(),
{
    if a.len() > 0 {
        assert(forall|j: int|
            0 <= j < a.drop_first().len() ==> a.drop_first()[j] == a[j + 1] && b.drop_first()[j]
                == b[j + 1]);
        lemma_find_entry_same_blocks(a.drop_first(), b.drop_first());
        assert forall|c: BlockIdView| #[trigger] find_entry(a, c) == find_entry(b, c) by {
            assert(find_entry(a.drop_first(), c) == find_entry(b.drop_first(), c));
        }
    }
}

/// A pushed entry leaves earlier finds alone.
proof fn lemma_find_entry_same_prefix(
    a: Seq<(BlockId, usize, usize)>,
    b: Seq<(BlockId, usize, usize)>,
    c: BlockIdView,
)
    requires
        b.len() == a.len() + 1,
        forall|j: int| 0 <= j < a.len() ==> #[trigger] b[j] == a[j],
    ensures
        find_entry(a, c) >= 0 ==> find_entry(b, c) == find_entry(a, c),
        b.last().0@ == c && find_entry(a, c) == -1 ==> find_entry(b, c) == a.len(),
    decreases a.len(),
{
    lemma_find_entry(a, c);
    lemma_find_entry(b, c);
    if a.len() == 0 {
        if b[0].0@ == c {
            assert(find_entry(b, c) == 0);
        }
    } else {
        assert(b[0] == a[0]);
        assert(b.drop_first() =~= a.drop_first().push(b.last()));
        assert(forall|j: int|
            0 <= j < a.drop_first().len() ==> b.drop_first()[j] == a.drop_first()[j]);
        lemma_find_entry_same_prefix(a.drop_first(), b.drop_first(), c);
        lemma_find_entry(a.drop_first(), c);
        lemma_find_entry(b.drop_first(), c);
    }
}

} // verus!
