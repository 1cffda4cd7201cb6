//! The buffer pool: a fixed set of in-memory buffer slots that pin blocks
//! of the store.
//!
//! A buffer with pin count 0 may be reassigned to a different block; one
//! with a positive pin count keeps its identity. Eviction is not
//! dirty-aware: reassigning an unpinned buffer discards its contents with no
//! flush, as the free-slot policy is first-unpinned-found. At most one
//! buffer holds a given block at any time.

use vstd::prelude::*;
use crate::errors::DbError;
use crate::filemanager::{BlockId, BlockIdView, BlockStore, MAX_BLOCK_SIZE, Page, PageBuilder,
    zero_block};
use crate::logmanager::{LogManager, durable_records};

verus! {

/// A pooled page plus pin count and modification metadata. `lsn` is the
/// durability floor: the page must not reach the store before the log is
/// durable through that LSN.
pub struct Buffer {
    pub contents: Page,
    pub block_id: Option<BlockId>,
    pub pins: usize,
    pub txn: Option<i32>,
    pub lsn: Option<i32>,
}

impl Buffer {
    /// Well-formedness against the store and the log: the page is one block
    /// long, the assigned block exists and is not part of the log file, and
    /// the recorded durability floor is a real LSN.
    pub open spec fn buf_wf(self, fm: BlockStore, lm: LogManager) -> bool {
        &&& self.contents@.len() == fm.spec_block_size()
        &&& match self.block_id {
            Some(b) => b@.file_name != lm.log_file@ && fm.has_file(b@.file_name)
                && b@.block_num < fm.file_blocks(b@.file_name).len(),
            None => true,
        }
        &&& match self.lsn {
            Some(l) => -1 <= l <= lm.latest_lsn,
            None => true,
        }
    }

    pub fn new(block_size: usize) -> (r: Buffer)
        requires
            1 <= block_size <= MAX_BLOCK_SIZE,
        ensures
            r.contents@ == zero_block(block_size as int),
            r.block_id is None,
            r.pins == 0,
            r.txn is None,
            r.lsn is None,
    {
        let page = PageBuilder::new().block_size(block_size).with_buffer().build();
        Buffer { contents: page, block_id: None, pins: 0, txn: None, lsn: None }
    }

    /// The buffer's page.
    pub fn contents(&self) -> (r: &Page)
        ensures
            r == &self.contents,
    {
        &self.contents
    }

    pub fn block_id(&self) -> (r: &Option<BlockId>)
        ensures
            r == &self.block_id,
    {
        &self.block_id
    }

    pub fn pinned(&self) -> (r: bool)
        ensures
            r == (self.pins > 0),
    {
        self.pins > 0
    }

    /// Records the transaction and LSN of a modification. The LSN is the
    /// durability floor for this page.
    pub fn set_modified(&mut self, txn: i32, lsn: i32)
        ensures
            final(self).txn == Some(txn),
            final(self).lsn == Some(lsn),
            final(self).contents == old(self).contents,
            final(self).block_id == old(self).block_id,
            final(self).pins == old(self).pins,
    {
        self.txn = Some(txn);
        self.lsn = Some(lsn);
    }

    pub fn modifying_txn(&self) -> (r: Option<i32>)
        ensures
            r == self.txn,
    {
        self.txn
    }

    pub fn pin(&mut self)
        requires
            old(self).pins < usize::MAX,
        ensures
            final(self).pins == old(self).pins + 1,
            final(self).contents == old(self).contents,
            final(self).block_id == old(self).block_id,
            final(self).txn == old(self).txn,
            final(self).lsn == old(self).lsn,
    {
        self.pins = self.pins + 1;
    }

    pub fn unpin(&mut self)
        requires
            old(self).pins > 0,
        ensures
            final(self).pins == old(self).pins - 1,
            final(self).contents == old(self).contents,
            final(self).block_id == old(self).block_id,
            final(self).txn == old(self).txn,
            final(self).lsn == old(self).lsn,
    {
        self.pins = self.pins - 1;
    }

    /// Reads the 4-byte integer at `offset` of the buffered page.
    pub fn get_int(&self, offset: usize) -> (r: Option<i32>)
        ensures
            r == if crate::filemanager::int_in_range(self.contents@.len() as int, offset as int) {
                Some(crate::filemanager::page_i32_at(self.contents@, offset as int))
            } else {
                None::<i32>
            },
    {
        self.contents.get_int(offset)
    }

    /// Reads the length-prefixed string at `offset` of the buffered page.
    pub fn get_string(&self, offset: usize) -> (r: Option<String>)
        ensures
            match r {
                Some(s) => crate::filemanager::bytes_readable(self.contents@, offset as int)
                    && vstd::utf8::valid_utf8(
                    crate::filemanager::page_bytes_at(self.contents@, offset as int),
                ) && s@ == vstd::utf8::decode_utf8(
                    crate::filemanager::page_bytes_at(self.contents@, offset as int),
                ),
                None => !crate::filemanager::bytes_readable(self.contents@, offset as int)
                    || !vstd::utf8::valid_utf8(
                    crate::filemanager::page_bytes_at(self.contents@, offset as int),
                ),
            },
    {
        self.contents.get_string(offset)
    }

    /// Writes the 4-byte integer at `offset` of the buffered page.
    pub fn set_int(&mut self, offset: usize, val: Option<i32>) -> (r: Result<(), DbError>)
        ensures
            final(self).block_id == old(self).block_id,
            final(self).pins == old(self).pins,
            final(self).txn == old(self).txn,
            final(self).lsn == old(self).lsn,
            match val {
                None => r == Ok::<(), DbError>(()) && final(self).contents@ == old(self).contents@,
                Some(v) => if crate::filemanager::int_in_range(
                    old(self).contents@.len() as int,
                    offset as int,
                ) {
                    r == Ok::<(), DbError>(()) && final(self).contents@ == crate::codec::splice(
                        old(self).contents@,
                        offset as int,
                        crate::codec::be_of_i32(v),
                    )
                } else {
                    r == Err::<(), DbError>(DbError::OutOfRange) && final(self).contents@ == old(self).contents@
                },
            },
    {
        self.contents.set_int(offset, val)
    }

    /// Writes the length-prefixed string at `offset` of the buffered page.
    pub fn set_string(&mut self, offset: usize, val: Option<String>) -> (r: Result<(), DbError>)
        ensures
            final(self).block_id == old(self).block_id,
            final(self).pins == old(self).pins,
            final(self).txn == old(self).txn,
            final(self).lsn == old(self).lsn,
            match val {
                None => r == Ok::<(), DbError>(()) && final(self).contents@ == old(self).contents@,
                Some(s) => if offset + 4 + vstd::utf8::encode_utf8(s@).len() <= old(self).contents@.len() {
                    r == Ok::<(), DbError>(()) && final(self).contents@ == crate::codec::splice(
                        old(self).contents@,
                        offset as int,
                        crate::filemanager::len_prefixed(vstd::utf8::encode_utf8(s@)),
                    )
                } else {
                    r == Err::<(), DbError>(DbError::OutOfRange) && final(self).contents@ == old(self).contents@
                },
            },
    {
        self.contents.set_string(offset, val)
    }

    /// Writes the page to its block if a modifying transaction is recorded,
    /// after making the log durable: the WAL-before-data rule. Clears the
    /// modification marker. A no-op when no transaction is recorded or no
    /// block is assigned.
    pub fn flush(&mut self, fm: &mut BlockStore, lm: &mut LogManager)
        requires
            old(lm).wf(*old(fm)),
            old(self).buf_wf(*old(fm), *old(lm)),
        ensures
            final(lm).wf(*final(fm)),
            final(self).buf_wf(*final(fm), *final(lm)),
            final(lm).log_file == old(lm).log_file,
            final(lm).latest_lsn == old(lm).latest_lsn,
            final(lm).all_records(*final(fm)) == old(lm).all_records(*old(fm)),
            final(self).contents == old(self).contents,
            final(self).block_id == old(self).block_id,
            final(self).pins == old(self).pins,
            final(self).lsn == old(self).lsn,
            final(fm).spec_block_size() == old(fm).spec_block_size(),
            final(fm).is_new() == old(fm).is_new(),
            forall|n: Seq<char>|
                final(fm).has_file(n) == old(fm).has_file(n) && final(fm).file_blocks(n).len()
                    == old(fm).file_blocks(n).len(),
            old(lm).last_lsn == old(lm).latest_lsn ==> *final(lm) == *old(lm) && final(fm).file_blocks(old(lm).log_file@) == old(fm).file_blocks(old(lm).log_file@),
            match (old(self).txn, old(self).block_id) {
                (Some(_), None) => {
                    &&& final(self).txn is None
                    &&& final(lm).last_lsn == old(lm).last_lsn
                    &&& forall|n: Seq<char>| final(fm).file_blocks(n) == old(fm).file_blocks(n)
                },
                (Some(_), Some(b)) => {
                    &&& final(self).txn is None
                    &&& final(lm).last_lsn == final(lm).latest_lsn
                    &&& durable_records(*final(fm), final(lm).log_file@) == old(lm).all_records(
                        *old(fm),
                    )
                    &&& (old(self).lsn matches Some(l) ==> l <= final(lm).last_lsn)
                    &&& final(fm).file_blocks(b@.file_name) == old(fm).file_blocks(
                        b@.file_name,
                    ).update(b@.block_num as int, old(self).contents@)
                    &&& forall|n: Seq<char>|
                        n != b@.file_name && n != final(lm).log_file@ ==> final(fm).file_blocks(n)
                            == old(fm).file_blocks(n)
                },
                _ => {
                    &&& final(self).txn == old(self).txn
                    &&& final(lm).last_lsn == old(lm).last_lsn
                    &&& forall|n: Seq<char>| final(fm).file_blocks(n) == old(fm).file_blocks(n)
                },
            },
    {
        if self.txn.is_none() {
            return ;
        }
        let blid = match &self.block_id {
            None => {
                self.txn = None;
                return ;
            },
            Some(b) => b.clone(),
        };
        let ghost lm0 = *lm;
        let ghost fm0 = *fm;
        lm.flush(fm);
        proof {
            if lm0.last_lsn == lm0.latest_lsn {
                assert(*lm == lm0);
                assert(*fm == fm0);
            }
        }
        let ghost fm1 = *fm;
        let wr = fm.write(&blid, &self.contents);
        proof {
            assert(wr is Ok);
            if lm0.last_lsn == lm0.latest_lsn {
                assert(blid@.file_name != lm0.log_file@);
                assert(fm.file_blocks(lm0.log_file@) == fm1.file_blocks(lm0.log_file@));
                assert(fm.file_blocks(lm0.log_file@) == fm0.file_blocks(lm0.log_file@));
            }
        }
        self.txn = None;
    }
}

/// How many buffers of the pool are unpinned.
pub open spec fn count_unpinned(pool: Seq<Buffer>) -> int
    decreases pool.len(),
{
    if pool.len() == 0 {
        0
    } else {
        count_unpinned(pool.drop_last()) + if pool.last().pins == 0 {
            1int
        } else {
            0int
        }
    }
}

/// The unpinned count lies between 0 and the pool size.
pub proof fn lemma_count_unpinned_bounds(pool: Seq<Buffer>)
    ensures
        0 <= count_unpinned(pool) <= pool.len(),
    decreases pool.len(),
{
    if pool.len() > 0 {
        lemma_count_unpinned_bounds(pool.drop_last());
    }
}

/// Changing one buffer changes the unpinned count exactly by the change at
/// that slot.
pub proof fn lemma_count_unpinned_update(pool: Seq<Buffer>, i: int, b: Buffer)
    requires
        0 <= i < pool.len(),
    ensures
        count_unpinned(pool.update(i, b)) == count_unpinned(pool) - (if pool[i].pins == 0 {
            1int
        } else {
            0int
        }) + (if b.pins == 0 {
            1int
        } else {
            0int
        }),
    decreases pool.len(),
{
    let u = pool.update(i, b);
    if i == pool.len() - 1 {
        assert(u.last() == b);
        assert(u.drop_last() =~= pool.drop_last());
    } else {
        assert(u.last() == pool.last());
        assert(u.drop_last() =~= pool.drop_last().update(i, b));
        lemma_count_unpinned_update(pool.drop_last(), i, b);
    }
}

/// The first buffer holding the given block, or -1.
pub open spec fn find_block(pool: Seq<Buffer>, b: BlockIdView) -> int
    decreases pool.len(),
{
    if pool.len() == 0 {
        -1
    } else if pool[0].block_id matches Some(bid) && bid@ == b {
        0
    } else {
        let r = find_block(pool.drop_first(), b);
        if r == -1 {
            -1
        } else {
            r + 1
        }
    }
}

/// The first unpinned buffer, or -1.
pub open spec fn find_unpinned(pool: Seq<Buffer>) -> int
    decreases pool.len(),
{
    if pool.len() == 0 {
        -1
    } else if pool[0].pins == 0 {
        0
    } else {
        let r = find_unpinned(pool.drop_first());
        if r == -1 {
            -1
        } else {
            r + 1
        }
    }
}

pub proof fn lemma_find_block(pool: Seq<Buffer>, b: BlockIdView)
    ensures
        -1 <= find_block(pool, b) < pool.len(),
        find_block(pool, b) == -1 <==> forall|j: int|
            0 <= j < pool.len() ==> !((#[trigger] pool[j].block_id) matches Some(bid) && bid@
                == b),
        find_block(pool, b) >= 0 ==> (pool[find_block(pool, b)].block_id matches Some(bid)
            && bid@ == b),
        find_block(pool, b) >= 0 ==> forall|j: int|
            0 <= j < find_block(pool, b) ==> !((#[trigger] pool[j].block_id) matches Some(bid)
                && bid@ == b),
    decreases pool.len(),
{
    if pool.len() > 0 {
        let rest = pool.drop_first();
        lemma_find_block(rest, b);
        assert(forall|j: int| 1 <= j < pool.len() ==> pool[j] == rest[j - 1]);
        if !(pool[0].block_id matches Some(bid) && bid@ == b) {
            let rr = find_block(rest, b);
            if rr == -1 {
                assert forall|j: int|
                    0 <= j < pool.len() implies !((#[trigger] pool[j].block_id) matches Some(bid)
                    && bid@ == b) by {
                    if j > 0 {
                        assert(!(rest[j - 1].block_id matches Some(bid) && bid@ == b));
                    }
                }
            } else {
                assert forall|j: int|
                    0 <= j < rr + 1 implies !((#[trigger] pool[j].block_id) matches Some(bid)
                    && bid@ == b) by {
                    if j > 0 {
                        assert(!(rest[j - 1].block_id matches Some(bid) && bid@ == b));
                    }
                }
            }
        }
    }
}

pub proof fn lemma_find_unpinned(pool: Seq<Buffer>)
    ensures
        -1 <= find_unpinned(pool) < pool.len(),
        find_unpinned(pool) == -1 <==> forall|j: int|
            0 <= j < pool.len() ==> (#[trigger] pool[j]).pins > 0,
        find_unpinned(pool) >= 0 ==> pool[find_unpinned(pool)].pins == 0,
        find_unpinned(pool) >= 0 ==> forall|j: int|
            0 <= j < find_unpinned(pool) ==> (#[trigger] pool[j]).pins > 0,
    decreases pool.len(),
{
    if pool.len() > 0 {
        let rest = pool.drop_first();
        lemma_find_unpinned(rest);
        assert(forall|j: int| 1 <= j < pool.len() ==> pool[j] == rest[j - 1]);
        if pool[0].pins > 0 {
            let rr = find_unpinned(rest);
            if rr == -1 {
                assert forall|j: int| 0 <= j < pool.len() implies (#[trigger] pool[j]).pins
                    > 0 by {
                    if j > 0 {
                        assert(rest[j - 1].pins > 0);
                    }
                }
            } else {
                assert forall|j: int| 0 <= j < rr + 1 implies (#[trigger] pool[j]).pins > 0 by {
                    if j > 0 {
                        assert(rest[j - 1].pins > 0);
                    }
                }
            }
        }
    }
}

/// A fixed-capacity pool of buffers. `buff_n_available` counts the slots
/// with pin count 0.
pub struct BufferManager {
    pub buffer_pool: Vec<Buffer>,
    pub buff_n_available: usize,
}

impl BufferManager {
    /// Pool well-formedness: the available count is the number of unpinned
    /// slots, every buffer is well-formed against the store and log, and at
    /// most one buffer holds a given block.
    pub open spec fn wf(self, fm: BlockStore, lm: LogManager) -> bool {
        &&& self.buff_n_available == count_unpinned(self.buffer_pool@)
        &&& forall|i: int|
            0 <= i < self.buffer_pool@.len() ==> (#[trigger] self.buffer_pool@[i]).buf_wf(fm, lm)
        &&& forall|i: int, j: int|
            0 <= i < j < self.buffer_pool@.len() && self.buffer_pool@[i].block_id is Some
                && self.buffer_pool@[j].block_id is Some ==> (
            #[trigger] self.buffer_pool@[i].block_id)->Some_0@ != (
            #[trigger] self.buffer_pool@[j].block_id)->Some_0@
    }

    /// The pin-count accounting law: the available counter equals the
    /// number of slots with pin count 0, and the number of pinned buffers
    /// never exceeds the pool capacity.
    pub proof fn lemma_pin_accounting(self, fm: BlockStore, lm: LogManager)
        requires
            self.wf(fm, lm),
        ensures
            self.buff_n_available == count_unpinned(self.buffer_pool@),
            self.buffer_pool@.len() - count_unpinned(self.buffer_pool@) <= self.buffer_pool@.len(),
            0 <= count_unpinned(self.buffer_pool@) <= self.buffer_pool@.len(),
    {
        lemma_count_unpinned_bounds(self.buffer_pool@);
    }

    /// The uniqueness law: two distinct live buffers never hold the same
    /// block.
    pub proof fn lemma_block_uniqueness(self, fm: BlockStore, lm: LogManager, i: int, j: int)
        requires
            self.wf(fm, lm),
            0 <= i < self.buffer_pool@.len(),
            0 <= j < self.buffer_pool@.len(),
            i != j,
            self.buffer_pool@[i].block_id is Some,
            self.buffer_pool@[j].block_id is Some,
        ensures
            self.buffer_pool@[i].block_id->Some_0@ != self.buffer_pool@[j].block_id->Some_0@,
    {
    }

    pub fn new(block_size: usize, buff_n: usize) -> (r: BufferManager)
        requires
            1 <= block_size <= MAX_BLOCK_SIZE,
        ensures
            r.buffer_pool@.len() == buff_n,
            r.buff_n_available == buff_n,
            forall|i: int|
                0 <= i < buff_n ==> (#[trigger] r.buffer_pool@[i]).block_id is None && r.buffer_pool@[i].pins
                    == 0 && r.buffer_pool@[i].txn is None && r.buffer_pool@[i].lsn is None
                    && r.buffer_pool@[i].contents@ == zero_block(block_size as int),
            forall|fm: BlockStore, lm: LogManager|
                fm.spec_block_size() == block_size ==> #[trigger] r.wf(fm, lm),
    {
        let mut pool: Vec<Buffer> = Vec::new();
        let mut i: usize = 0;
        while i < buff_n
            invariant
                i <= buff_n,
                pool@.len() == i,
                1 <= block_size <= MAX_BLOCK_SIZE,
                forall|j: int|
                    0 <= j < i ==> (#[trigger] pool@[j]).block_id is None && pool@[j].pins == 0
                        && pool@[j].txn is None && pool@[j].lsn is None && pool@[j].contents@
                        == zero_block(block_size as int),
                count_unpinned(pool@) == i,
            decreases buff_n - i,
        {
            let ghost pool0 = pool@;
            pool.push(Buffer::new(block_size));
            proof {
                assert(pool@.drop_last() =~= pool0);
            }
            i = i + 1;
        }
        let r = BufferManager { buffer_pool: pool, buff_n_available: buff_n };
        proof {
            assert forall|fm: BlockStore, lm: LogManager|
                fm.spec_block_size() == block_size implies #[trigger] r.wf(fm, lm) by {
            }
        }
        r
    }

    /// The count of buffers with pin count 0.
    pub fn available_buffers(&self) -> (r: usize)
        ensures
            r == self.buff_n_available,
    {
        self.buff_n_available
    }

    /// The slot holding the given block, if any.
    pub fn find_buffer(&self, block_id: &BlockId) -> (r: Option<usize>)
        ensures
            match r {
                Some(i) => i < self.buffer_pool@.len() && find_block(
                    self.buffer_pool@,
                    block_id@,
                ) == i,
                None => find_block(self.buffer_pool@, block_id@) == -1,
            },
    {
        proof {
            lemma_find_block(self.buffer_pool@, block_id@);
        }
        let mut i: usize = 0;
        while i < self.buffer_pool.len()
            invariant
                i <= self.buffer_pool@.len(),
                forall|j: int|
                    0 <= j < i ==> !((#[trigger] self.buffer_pool@[j].block_id) matches Some(bid)
                        && bid@ == block_id@),
            decreases self.buffer_pool@.len() - i,
        {
            let hit = match &self.buffer_pool[i].block_id {
                Some(bid) => *bid == *block_id,
                None => false,
            };
            if hit {
                proof {
                    lemma_find_block(self.buffer_pool@, block_id@);
                    let r = find_block(self.buffer_pool@, block_id@);
                    if r == -1 {
                        assert(!(self.buffer_pool@[i as int].block_id matches Some(bid) && bid@
                            == block_id@));
                    } else if r < i {
                        assert(!(self.buffer_pool@[r].block_id matches Some(bid) && bid@
                            == block_id@));
                    } else if r > i {
                        lemma_find_block_prefix(self.buffer_pool@, block_id@, i as int);
                    }
                }
                return Some(i);
            }
            i = i + 1;
        }
        None
    }

    /// The first unpinned slot, if any.
    pub fn find_unpinned_buffer(&self) -> (r: Option<usize>)
        ensures
            match r {
                Some(i) => i < self.buffer_pool@.len() && find_unpinned(self.buffer_pool@) == i,
                None => find_unpinned(self.buffer_pool@) == -1,
            },
    {
        proof {
            lemma_find_unpinned(self.buffer_pool@);
        }
        let mut i: usize = 0;
        while i < self.buffer_pool.len()
            invariant
                i <= self.buffer_pool@.len(),
                forall|j: int| 0 <= j < i ==> (#[trigger] self.buffer_pool@[j]).pins > 0,
            decreases self.buffer_pool@.len() - i,
        {
            if self.buffer_pool[i].pins == 0 {
                proof {
                    lemma_find_unpinned(self.buffer_pool@);
                    let r = find_unpinned(self.buffer_pool@);
                    if r == -1 {
                        assert(self.buffer_pool@[i as int].pins > 0);
                    } else if r < i {
                        assert(self.buffer_pool@[r].pins > 0);
                    } else if r > i {
                        lemma_find_unpinned_prefix(self.buffer_pool@, i as int);
                    }
                }
                return Some(i);
            }
            i = i + 1;
        }
        None
    }
}

/// Does some buffer of the pool, modified by transaction `t`, hold block
/// `(n, k)`?
pub open spec fn pool_writes(pool: Seq<Buffer>, t: i32, n: Seq<char>, k: int) -> bool {
    exists|i: int|
        0 <= i < pool.len() && (#[trigger] pool[i]).txn == Some(t) && (pool[i].block_id matches
        Some(b) && b@.file_name == n && b@.block_num == k)
}

/// A pool with an unpinned slot counts at least one.
proof fn lemma_count_unpinned_positive(pool: Seq<Buffer>, i: int)
    requires
        0 <= i < pool.len(),
        pool[i].pins == 0,
    ensures
        count_unpinned(pool) >= 1,
    decreases pool.len(),
{
    lemma_count_unpinned_bounds(pool.drop_last());
    if i < pool.len() - 1 {
        lemma_count_unpinned_positive(pool.drop_last(), i);
    }
}

impl BufferManager {
    /// Pins the named block into a buffer and returns the slot as the
    /// handle. A buffer already holding the block is pinned again; else the
    /// first unpinned buffer is reassigned, its prior contents discarded
    /// with no flush, and the block's bytes loaded. With no unpinned buffer
    /// the pool reports `BufferUnavailable`: in this single-owner engine no
    /// concurrent caller can release one while this call polls, so it fails
    /// at once rather than after a timeout.
    pub fn pin(&mut self, fm: &mut BlockStore, lm: &LogManager, block_id: &BlockId) -> (r: Result<
        usize,
        DbError,
    >)
        requires
            old(self).wf(*old(fm), *lm),
            old(fm).inv(),
            block_id@.file_name != lm.log_file@,
        ensures
            final(self).wf(*final(fm), *lm),
            final(fm).inv(),
            final(fm).spec_block_size() == old(fm).spec_block_size(),
            final(fm).is_new() == old(fm).is_new(),
            forall|n: Seq<char>|
                final(fm).has_file(n) == old(fm).has_file(n) && final(fm).file_blocks(n) == old(fm).file_blocks(n),
            final(self).buffer_pool@.len() == old(self).buffer_pool@.len(),
            ({
                let pool0 = old(self).buffer_pool@;
                let fb = find_block(pool0, block_id@);
                let fu = find_unpinned(pool0);
                if fb >= 0 && pool0[fb].pins < usize::MAX {
                    &&& r == Ok::<usize, DbError>(fb as usize)
                    &&& final(self).buffer_pool@ == pool0.update(
                        fb,
                        Buffer {
                            pins: (pool0[fb].pins + 1) as usize,
                            contents: pool0[fb].contents,
                            block_id: pool0[fb].block_id,
                            txn: pool0[fb].txn,
                            lsn: pool0[fb].lsn,
                        },
                    )
                } else if fb >= 0 {
                    r == Err::<usize, DbError>(DbError::BufferUnavailable) && *final(self)
                        == *old(self)
                } else if fu >= 0 {
                    if old(fm).has_file(block_id@.file_name) && block_id@.block_num < old(fm).file_blocks(block_id@.file_name).len() {
                        &&& r == Ok::<usize, DbError>(fu as usize)
                        &&& final(self).buffer_pool@[fu].block_id matches Some(b2) && b2@
                            == block_id@
                        &&& final(self).buffer_pool@[fu].contents@ == old(fm).file_blocks(
                            block_id@.file_name,
                        )[block_id@.block_num as int]
                        &&& final(self).buffer_pool@[fu].pins == 1
                        &&& final(self).buffer_pool@[fu].txn is None
                        &&& final(self).buffer_pool@[fu].lsn is None
                        &&& forall|j: int|
                            0 <= j < pool0.len() && j != fu ==> final(self).buffer_pool@[j]
                                == pool0[j]
                    } else {
                        r == Err::<usize, DbError>(DbError::BlockNotFound) && final(self).buffer_pool@
                            == pool0 && final(self).buff_n_available == old(self).buff_n_available
                    }
                } else {
                    r == Err::<usize, DbError>(DbError::BufferUnavailable) && *final(self)
                        == *old(self)
                }
            }),
    {
        let ghost pool0 = self.buffer_pool@;
        proof {
            lemma_find_block(pool0, block_id@);
            lemma_find_unpinned(pool0);
        }
        match self.find_buffer(block_id) {
            Some(i) => {
                if self.buffer_pool[i].pins == usize::MAX {
                    return Err(DbError::BufferUnavailable);
                }
                let was_unpinned = self.buffer_pool[i].pins == 0;
                self.buffer_pool[i].pin();
                if was_unpinned {
                    proof {
                        lemma_count_unpinned_positive(pool0, i as int);
                    }
                    self.buff_n_available = self.buff_n_available - 1;
                }
                proof {
                    lemma_count_unpinned_update(pool0, i as int, self.buffer_pool@[i as int]);
                    assert(self.buffer_pool@ =~= pool0.update(
                        i as int,
                        self.buffer_pool@[i as int],
                    ));
                }
                Ok(i)
            },
            None => {
                match self.find_unpinned_buffer() {
                    None => Err(DbError::BufferUnavailable),
                    Some(i) => {
                        proof {
                            fm.lemma_inv_facts();
                        }
                        let mut page = PageBuilder::new().block_size(
                            fm.block_size(),
                        ).with_buffer().build();
                        match fm.read(block_id, &mut page) {
                            Err(e) => Err(e),
                            Ok(()) => {
                                let b2 = block_id.clone();
                                self.buffer_pool[i] = Buffer {
                                    contents: page,
                                    block_id: Some(b2),
                                    pins: 1,
                                    txn: None,
                                    lsn: None,
                                };
                                proof {
                                    lemma_count_unpinned_positive(pool0, i as int);
                                }
                                self.buff_n_available = self.buff_n_available - 1;
                                proof {
                                    lemma_count_unpinned_update(
                                        pool0,
                                        i as int,
                                        self.buffer_pool@[i as int],
                                    );
                                    assert(self.buffer_pool@ =~= pool0.update(
                                        i as int,
                                        self.buffer_pool@[i as int],
                                    ));
                                    assert(forall|j: int|
                                        0 <= j < pool0.len() && j != i
                                            ==> #[trigger] self.buffer_pool@[j] == pool0[j]);
                                }
                                Ok(i)
                            },
                        }
                    },
                }
            },
        }
    }

    /// Releases one pin of the buffer in the given slot; a buffer whose pin
    /// count reaches 0 becomes available again.
    pub fn unpin(&mut self, idx: usize)
        requires
            idx < old(self).buffer_pool@.len(),
            old(self).buffer_pool@[idx as int].pins > 0,
            old(self).buff_n_available == count_unpinned(old(self).buffer_pool@),
        ensures
            final(self).buffer_pool@ == old(self).buffer_pool@.update(
                idx as int,
                Buffer {
                    pins: (old(self).buffer_pool@[idx as int].pins - 1) as usize,
                    contents: old(self).buffer_pool@[idx as int].contents,
                    block_id: old(self).buffer_pool@[idx as int].block_id,
                    txn: old(self).buffer_pool@[idx as int].txn,
                    lsn: old(self).buffer_pool@[idx as int].lsn,
                },
            ),
            final(self).buff_n_available == count_unpinned(final(self).buffer_pool@),
            forall|fm: BlockStore, lm: LogManager|
                old(self).wf(fm, lm) ==> #[trigger] final(self).wf(fm, lm),
    {
        let ghost pool0 = self.buffer_pool@;
        self.buffer_pool[idx].unpin();
        proof {
            lemma_count_unpinned_update(pool0, idx as int, self.buffer_pool@[idx as int]);
            lemma_count_unpinned_bounds(pool0);
        }
        if self.buffer_pool[idx].pins == 0 {
            let nb = self.buffer_pool.len();
            proof {
                assert(count_unpinned(self.buffer_pool@) == count_unpinned(pool0) + 1);
                assert(count_unpinned(self.buffer_pool@) <= nb) by {
                    lemma_count_unpinned_bounds(self.buffer_pool@);
                }
            }
            self.buff_n_available = self.buff_n_available + 1;
        }
        proof {
            assert(self.buffer_pool@ =~= pool0.update(idx as int, self.buffer_pool@[idx as int]));
        }
    }

    /// Flushes every buffer last modified by the transaction: makes the log
    /// durable first, then writes each such page to its block and clears its
    /// marker. The WAL-before-data rule holds: each flushed buffer's
    /// recorded LSN is durable by the time its page reaches the store.
    #[verifier::loop_isolation(false)]
    pub fn flush_all_buffers(&mut self, fm: &mut BlockStore, lm: &mut LogManager, txn_num: i32)
        requires
            old(self).wf(*old(fm), *old(lm)),
            old(lm).wf(*old(fm)),
        ensures
            final(self).wf(*final(fm), *final(lm)),
            final(lm).wf(*final(fm)),
            final(lm).log_file == old(lm).log_file,
            final(lm).latest_lsn == old(lm).latest_lsn,
            old(lm).last_lsn <= final(lm).last_lsn,
            final(lm).all_records(*final(fm)) == old(lm).all_records(*old(fm)),
            final(fm).spec_block_size() == old(fm).spec_block_size(),
            final(fm).is_new() == old(fm).is_new(),
            forall|n: Seq<char>|
                final(fm).has_file(n) == old(fm).has_file(n) && final(fm).file_blocks(n).len()
                    == old(fm).file_blocks(n).len(),
            final(self).buffer_pool@.len() == old(self).buffer_pool@.len(),
            final(self).buff_n_available == old(self).buff_n_available,
            forall|j: int|
                0 <= j < old(self).buffer_pool@.len() ==> #[trigger] final(self).buffer_pool@[j]
                    == if old(self).buffer_pool@[j].txn == Some(txn_num) {
                    Buffer {
                        txn: None,
                        contents: old(self).buffer_pool@[j].contents,
                        block_id: old(self).buffer_pool@[j].block_id,
                        pins: old(self).buffer_pool@[j].pins,
                        lsn: old(self).buffer_pool@[j].lsn,
                    }
                } else {
                    old(self).buffer_pool@[j]
                },
            forall|j: int|
                0 <= j < old(self).buffer_pool@.len() && old(self).buffer_pool@[j].txn == Some(
                    txn_num,
                ) ==> ((#[trigger] old(self).buffer_pool@[j].block_id) matches Some(b) ==> final(fm).file_blocks(b@.file_name)[b@.block_num as int] == old(self).buffer_pool@[j].contents@ && (old(self).buffer_pool@[j].lsn matches Some(l)
                    ==> l <= final(lm).last_lsn)),
            forall|n: Seq<char>, k: int|
                n != old(lm).log_file@ && !pool_writes(old(self).buffer_pool@, txn_num, n, k) && 0
                    <= k < old(fm).file_blocks(n).len() ==> #[trigger] final(fm).file_blocks(n)[k]
                    == old(fm).file_blocks(n)[k],
    {
        let n_bufs = self.buffer_pool.len();
        let mut i: usize = 0;
        while i < n_bufs
            invariant
                i <= n_bufs,
                self.buffer_pool@.len() == n_bufs,
                self.wf(*fm, *lm),
                lm.wf(*fm),
                lm.log_file == old(lm).log_file,
                lm.latest_lsn == old(lm).latest_lsn,
                old(lm).last_lsn <= lm.last_lsn,
                lm.all_records(*fm) == old(lm).all_records(*old(fm)),
                fm.spec_block_size() == old(fm).spec_block_size(),
                fm.is_new() == old(fm).is_new(),
                forall|n: Seq<char>|
                    fm.has_file(n) == old(fm).has_file(n) && fm.file_blocks(n).len() == old(fm).file_blocks(n).len(),
                self.buff_n_available == old(self).buff_n_available,
                forall|j: int|
                    i <= j < n_bufs ==> #[trigger] self.buffer_pool@[j] == old(self).buffer_pool@[j],
                forall|j: int|
                    0 <= j < i ==> #[trigger] self.buffer_pool@[j] == if old(self).buffer_pool@[j].txn == Some(txn_num) {
                        Buffer {
                            txn: None,
                            contents: old(self).buffer_pool@[j].contents,
                            block_id: old(self).buffer_pool@[j].block_id,
                            pins: old(self).buffer_pool@[j].pins,
                            lsn: old(self).buffer_pool@[j].lsn,
                        }
                    } else {
                        old(self).buffer_pool@[j]
                    },
                forall|j: int|
                    0 <= j < i && old(self).buffer_pool@[j].txn == Some(txn_num) ==> ((
                    #[trigger] old(self).buffer_pool@[j].block_id) matches Some(b)
                        ==> fm.file_blocks(b@.file_name)[b@.block_num as int] == old(self).buffer_pool@[j].contents@ && (old(self).buffer_pool@[j].lsn matches Some(l)
                        ==> l <= lm.last_lsn)),
                forall|n: Seq<char>, k: int|
                    n != old(lm).log_file@ && !pool_writes(old(self).buffer_pool@, txn_num, n, k)
                        && 0 <= k < old(fm).file_blocks(n).len() ==> #[trigger] fm.file_blocks(n)[k]
                        == old(fm).file_blocks(n)[k],
            decreases n_bufs - i,
        {
            let matches_txn = match self.buffer_pool[i].modifying_txn() {
                Some(t) => t == txn_num,
                None => false,
            };
            if matches_txn {
                let ghost pool_pre = self.buffer_pool@;
                let ghost fm_pre = *fm;
                let ghost lm_pre = *lm;
                self.buffer_pool[i].flush(fm, lm);
                proof {
                    assert(self.buffer_pool@ =~= pool_pre.update(
                        i as int,
                        self.buffer_pool@[i as int],
                    ));
                    lemma_count_unpinned_update(pool_pre, i as int, self.buffer_pool@[i as int]);
                    assert forall|j: int|
                        0 <= j < n_bufs implies (#[trigger] self.buffer_pool@[j]).buf_wf(
                        *fm,
                        *lm,
                    ) by {
                        assert(pool_pre[j].buf_wf(fm_pre, lm_pre));
                    }
                    assert forall|n: Seq<char>, k: int|
                        n != old(lm).log_file@ && !pool_writes(
                            old(self).buffer_pool@,
                            txn_num,
                            n,
                            k,
                        ) && 0 <= k < old(fm).file_blocks(n).len() implies #[trigger] fm.file_blocks(
                        n,
                    )[k] == old(fm).file_blocks(n)[k] by {
                        let bopt = old(self).buffer_pool@[i as int].block_id;
                        if bopt is Some {
                            let b = bopt->Some_0;
                            if b@.file_name == n && b@.block_num == k {
                                assert(pool_writes(old(self).buffer_pool@, txn_num, n, k));
                            }
                        }
                    }
                }
            }
            i = i + 1;
        }
    }
}

/// Pools whose slots have the same pin counts count equally.
pub proof fn lemma_count_unpinned_same_pins(a: Seq<Buffer>, b: Seq<Buffer>)
    requires
        a.len() == b.len(),
        forall|j: int| 0 <= j < a.len() ==> (#[trigger] a[j]).pins == (#[trigger] b[j]).pins,
    ensures
        count_unpinned(a) == count_unpinned(b),
    decreases a.len(),
{
    if a.len() > 0 {
        assert(forall|j: int|
            0 <= j < a.drop_last().len() ==> a.drop_last()[j] == a[j] && b.drop_last()[j] == b[j]);
        lemma_count_unpinned_same_pins(a.drop_last(), b.drop_last());
    }
}

/// Pools whose slots hold the same blocks find equally.
pub proof fn lemma_find_block_same_ids(a: Seq<Buffer>, b: Seq<Buffer>, c: BlockIdView)
    requires
        a.len() == b.len(),
        forall|j: int| 0 <= j < a.len() ==> (#[trigger] a[j]).block_id == (#[trigger] b[j]).block_id,
    ensures
        find_block(a, c) == find_block(b, c),
    decreases a.len(),
{
    if a.len() > 0 {
        assert(forall|j: int|
            0 <= j < a.drop_first().len() ==> a.drop_first()[j] == a[j + 1] && b.drop_first()[j]
                == b[j + 1]);
        lemma_find_block_same_ids(a.drop_first(), b.drop_first(), c);
    }
}

/// Under the pool's uniqueness invariant, a slot holding `b` is the slot
/// `find_block` reports.
pub proof fn lemma_find_block_unique(pool: Seq<Buffer>, b: BlockIdView, i: int)
    requires
        0 <= i < pool.len(),
        pool[i].block_id matches Some(bid) && bid@ == b,
        forall|x: int, y: int|
            0 <= x < y < pool.len() && pool[x].block_id is Some && pool[y].block_id is Some
                ==> (#[trigger] pool[x].block_id)->Some_0@ != (#[trigger] pool[y].block_id)->Some_0@,
    ensures
        find_block(pool, b) == i,
{
    lemma_find_block(pool, b);
    let r = find_block(pool, b);
    if r == -1 {
        assert(!(pool[i].block_id matches Some(bid) && bid@ == b));
    } else if r != i {
        assert(pool[r].block_id->Some_0@ == b);
        assert(pool[i].block_id->Some_0@ == b);
        if r < i {
            assert(pool[r].block_id->Some_0@ != pool[i].block_id->Some_0@);
        } else {
            assert(pool[i].block_id->Some_0@ != pool[r].block_id->Some_0@);
        }
    }
}

/// If a buffer before the found index matched, the find would have stopped
/// there: positions before `find_block` never match.
proof fn lemma_find_block_prefix(pool: Seq<Buffer>, b: BlockIdView, i: int)
    requires
        0 <= i < pool.len(),
        pool[i].block_id matches Some(bid) && bid@ == b,
    ensures
        -1 <= find_block(pool, b) <= i,
    decreases pool.len(),
{
    lemma_find_block(pool, b);
    if find_block(pool, b) > i {
        assert(!(pool[i].block_id matches Some(bid) && bid@ == b));
    }
}

/// Positions before `find_unpinned` are all pinned.
proof fn lemma_find_unpinned_prefix(pool: Seq<Buffer>, i: int)
    requires
        0 <= i < pool.len(),
        pool[i].pins == 0,
    ensures
        -1 <= find_unpinned(pool) <= i,
{
    lemma_find_unpinned(pool);
    if find_unpinned(pool) > i {
        assert(pool[i].pins > 0);
    }
}

} // verus!
