//! The engine: single owner of the block store, the write-ahead log and the
//! buffer pool.
//!
//! One `Database` owns the three managers and hands them to the transaction
//! layer by mutable borrow: no interior mutability, no shared aliasing, so
//! Verus can reason about every mutation.

use vstd::prelude::*;
use crate::buffermanager::{BufferManager, find_block};
use crate::filemanager::{BlockIdView, BlockStore, MAX_BLOCK_SIZE};
use crate::logmanager::{LogManager, LogManagerBuilder, chain_records};

verus! {

/// The transactional storage engine.
pub struct Database {
    pub fm: BlockStore,
    pub lm: LogManager,
    pub bm: BufferManager,
    pub next_txn: i32,
}

impl Database {
    /// Engine well-formedness: the log and pool are well-formed against the
    /// store, blocks have room for the fixed-size log records, and the
    /// transaction counter is a valid id.
    pub open spec fn wf(self) -> bool {
        &&& self.lm.wf(self.fm)
        &&& self.bm.wf(self.fm, self.lm)
        &&& 16 <= self.fm.spec_block_size()
        &&& 0 <= self.next_txn
    }

    /// A fresh engine over empty storage.
    pub fn new(log_file: &str, block_size: usize, pool_capacity: usize) -> (r: Database)
        requires
            16 <= block_size <= MAX_BLOCK_SIZE,
        ensures
            r.wf(),
            r.fm.spec_block_size() == block_size,
            r.lm.log_file@ == log_file@,
            r.lm.latest_lsn == 0,
            r.lm.last_lsn == 0,
            r.lm.all_records(r.fm) == Seq::<Seq<u8>>::empty(),
            r.next_txn == 1,
            r.bm.buffer_pool@.len() == pool_capacity,
            r.bm.buff_n_available == pool_capacity,
            forall|n: Seq<char>| n != log_file@ ==> !r.fm.has_file(n),
    {
        let mut fm = BlockStore::new(block_size);
        proof {
            fm.lemma_absent_file_empty(log_file@);
        }
        let lm = LogManagerBuilder::new(log_file.to_owned()).build(&mut fm);
        let bm = BufferManager::new(block_size, pool_capacity);
        proof {
            assert(chain_records(Seq::<Seq<u8>>::empty()) =~= Seq::<Seq<u8>>::empty());
        }
        Database { fm, lm, bm, next_txn: 1 }
    }

    /// Reopens an engine over storage that survived a stop or crash: the
    /// buffers and the unflushed log tail of the previous run are gone,
    /// the durable blocks remain.
    pub fn from_store(fm: BlockStore, log_file: &str, pool_capacity: usize) -> (r: Database)
        requires
            fm.inv(),
            16 <= fm.spec_block_size(),
            forall|i: int|
                0 <= i < fm.file_blocks(log_file@).len() ==> crate::logmanager::block_parses(
                    #[trigger] fm.file_blocks(log_file@)[i],
                    fm.spec_block_size() as int,
                ),
        ensures
            r.wf(),
            r.fm.spec_block_size() == fm.spec_block_size(),
            r.lm.log_file@ == log_file@,
            r.lm.latest_lsn == 0,
            r.lm.last_lsn == 0,
            r.lm.all_records(r.fm) == chain_records(fm.file_blocks(log_file@)),
            r.next_txn == 1,
            forall|n: Seq<char>|
                n != log_file@ ==> r.fm.has_file(n) == fm.has_file(n) && r.fm.file_blocks(n)
                    == fm.file_blocks(n),
    {
        let mut fm = fm;
        proof {
            fm.lemma_inv_facts();
        }
        let block_size = fm.block_size();
        let lmb = LogManagerBuilder::new(log_file.to_owned());
        proof {
            assert(fm.file_blocks(lmb.log_file@) == fm.file_blocks(log_file@));
            assert(lmb.can_open(fm));
        }
        let lm = lmb.build(&mut fm);
        let bm = BufferManager::new(block_size, pool_capacity);
        Database { fm, lm, bm, next_txn: 1 }
    }

    /// Gives up the engine and hands back only what is durable: used to
    /// model a crash, after which a new engine is built over the store.
    pub fn into_store(self) -> (r: BlockStore)
        ensures
            r == self.fm,
    {
        self.fm
    }

    /// The engine's current view of a block's bytes: the pooled copy when
    /// some buffer holds the block, else the durable copy in the store.
    pub open spec fn cached_block(self, b: BlockIdView) -> Seq<u8> {
        if find_block(self.bm.buffer_pool@, b) >= 0 {
            self.bm.buffer_pool@[find_block(self.bm.buffer_pool@, b)].contents@
        } else {
            self.fm.file_blocks(b.file_name)[b.block_num as int]
        }
    }

    /// Every unpinned pooled block holds exactly its durable bytes: nothing
    /// unpinned is dirty, so reassigning such a slot loses nothing. This is
    /// the state recovery runs in.
    pub open spec fn unpinned_agree(self) -> bool {
        forall|j: int|
            0 <= j < self.bm.buffer_pool@.len() ==> ((#[trigger] self.bm.buffer_pool@[j]).pins
                == 0 ==> match self.bm.buffer_pool@[j].block_id {
                Some(b) => self.bm.buffer_pool@[j].contents@ == self.fm.file_blocks(
                    b@.file_name,
                )[b@.block_num as int],
                None => true,
            })
    }

    /// The fixed block size of the underlying store.
    pub fn block_size(&self) -> (r: usize)
        ensures
            r == self.fm.spec_block_size(),
    {
        self.fm.block_size()
    }

    /// The count of unpinned buffer slots.
    pub fn available_buffers(&self) -> (r: usize)
        ensures
            r == self.bm.buff_n_available,
    {
        self.bm.available_buffers()
    }
}

} // verus!
