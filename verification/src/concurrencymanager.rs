//! The lock table: shared and exclusive locks per block, under strict
//! two-phase locking.
//!
//! Each block's descriptor is 0 when unlocked, -1 when exclusively held, and
//! the number of holders when shared. A request that cannot be granted
//! reports `LockTimeout` at once: in this single-owner engine no concurrent
//! caller can release a lock while the request waits, so blocking until a
//! timeout would always end the same way. The wait and deadlock policy
//! itself is a pluggable external capability; a transaction releases every
//! lock it holds exactly once, at its end.

use vstd::prelude::*;
use crate::errors::DbError;
use crate::filemanager::{BlockId, BlockIdView};

verus! {

/// The position of the entry for block `b`, or -1.
pub open spec fn find_lock(table: Seq<(BlockId, i32)>, b: BlockIdView) -> int
    decreases table.len(),
{
    if table.len() == 0 {
        -1
    } else if table[0].0@ == b {
        0
    } else {
        let r = find_lock(table.drop_first(), b);
        if r == -1 {
            -1
        } else {
            r + 1
        }
    }
}

pub proof fn lemma_find_lock(table: Seq<(BlockId, i32)>, b: BlockIdView)
    ensures
        -1 <= find_lock(table, b) < table.len(),
        find_lock(table, b) == -1 <==> forall|j: int|
            0 <= j < table.len() ==> (#[trigger] table[j].0)@ != b,
        find_lock(table, b) >= 0 ==> table[find_lock(table, b)].0@ == b && forall|j: int|
            0 <= j < find_lock(table, b) ==> (#[trigger] table[j].0)@ != b,
    decreases table.len(),
{
    if table.len() > 0 {
        let rest = table.drop_first();
        lemma_find_lock(rest, b);
        assert(forall|j: int| 1 <= j < table.len() ==> table[j] == rest[j - 1]);
        if table[0].0@ != b {
            let rr = find_lock(rest, b);
            if rr == -1 {
                assert forall|j: int| 0 <= j < table.len() implies (#[trigger] table[j].0)@
                    != b by {
                    if j > 0 {
                        assert(rest[j - 1].0@ != b);
                    }
                }
            } else {
                assert forall|j: int| 0 <= j < rr + 1 implies (#[trigger] table[j].0)@ != b by {
                    if j > 0 {
                        assert(rest[j - 1].0@ != b);
                    }
                }
            }
        }
    }
}

/// The lock table.
pub struct ConcurrencyManager {
    pub lock_table: Vec<(BlockId, i32)>,
}

impl ConcurrencyManager {
    /// Well-formedness: one entry per block, and no entry for an unlocked
    /// block.
    pub open spec fn inv(&self) -> bool {
        &&& forall|i: int, j: int|
            0 <= i < j < self.lock_table@.len() ==> (#[trigger] self.lock_table@[i].0)@ != (
            #[trigger] self.lock_table@[j].0)@
        &&& forall|i: int|
            0 <= i < self.lock_table@.len() ==> ((#[trigger] self.lock_table@[i]).1 == -1
                || self.lock_table@[i].1 >= 1)
    }

    /// A block's descriptor: 0 unlocked, -1 exclusively held, otherwise the
    /// number of shared holders.
    pub open spec fn descriptor(&self, b: BlockIdView) -> int {
        if find_lock(self.lock_table@, b) >= 0 {
            self.lock_table@[find_lock(self.lock_table@, b)].1 as int
        } else {
            0
        }
    }

    pub fn new() -> (r: ConcurrencyManager)
        ensures
            r.inv(),
            forall|b: BlockIdView| r.descriptor(b) == 0,
    {
        let r = ConcurrencyManager { lock_table: Vec::new() };
        proof {
            assert forall|b: BlockIdView| r.descriptor(b) == 0 by {
                lemma_find_lock(r.lock_table@, b);
            }
        }
        r
    }

    /// The slot of the entry for this block, as `find_lock` sees it.
    fn lookup(&self, block_id: &BlockId) -> (r: Option<usize>)
        ensures
            match r {
                Some(i) => i < self.lock_table@.len() && find_lock(self.lock_table@, block_id@)
                    == i && self.lock_table@[i as int].0@ == block_id@,
                None => find_lock(self.lock_table@, block_id@) == -1,
            },
    {
        let mut i: usize = 0;
        while i < self.lock_table.len()
            invariant
                i <= self.lock_table@.len(),
                forall|j: int| 0 <= j < i ==> (#[trigger] self.lock_table@[j].0)@ != block_id@,
            decreases self.lock_table@.len() - i,
        {
            if self.lock_table[i].0 == *block_id {
                proof {
                    lemma_find_lock(self.lock_table@, block_id@);
                    let r = find_lock(self.lock_table@, block_id@);
                    if r == -1 {
                        assert(self.lock_table@[i as int].0@ != block_id@);
                    } else if r < i {
                        assert(self.lock_table@[r].0@ != block_id@);
                    } else if r > i {
                        assert(self.lock_table@[i as int].0@ != block_id@);
                    }
                }
                return Some(i);
            }
            i = i + 1;
        }
        proof {
            lemma_find_lock(self.lock_table@, block_id@);
        }
        None
    }

    /// The current descriptor of a block, as `descriptor` sees it.
    pub fn held(&self, block_id: &BlockId) -> (r: i32)
        ensures
            r == self.descriptor(block_id@),
    {
        match self.lookup(block_id) {
            None => 0,
            Some(i) => self.lock_table[i].1,
        }
    }

    /// Requests a shared lock: granted, adding one holder, unless the block
    /// is exclusively held or the holder count would overflow.
    pub fn acquire_s_lock(&mut self, block_id: &BlockId) -> (r: Result<(), DbError>)
        requires
            old(self).inv(),
        ensures
            final(self).inv(),
            if old(self).descriptor(block_id@) == -1 || old(self).descriptor(block_id@)
                == i32::MAX {
                r == Err::<(), DbError>(DbError::LockTimeout) && final(self).lock_table@ == old(
                    self,
                ).lock_table@
            } else {
                r == Ok::<(), DbError>(()) && final(self).descriptor(block_id@) == old(
                    self,
                ).descriptor(block_id@) + 1 && forall|b: BlockIdView|
                    b != block_id@ ==> final(self).descriptor(b) == old(self).descriptor(b)
            },
    {
        let ghost table0 = self.lock_table@;
        match self.lookup(block_id) {
            None => {
                self.lock_table.push((block_id.clone(), 1));
                proof {
                    lemma_find_lock(table0, block_id@);
                    assert forall|b: BlockIdView| true implies #[trigger] find_lock(
                        self.lock_table@,
                        b,
                    ) == if b == block_id@ {
                        table0.len() as int
                    } else {
                        find_lock(table0, b)
                    } by {
                        lemma_find_lock_push(table0, self.lock_table@[table0.len() as int], b);
                        lemma_find_lock(table0, b);
                    }
                    assert forall|b: BlockIdView|
                        b != block_id@ implies self.descriptor(b) == old(self).descriptor(b) by {
                        lemma_find_lock(table0, b);
                        if find_lock(table0, b) >= 0 {
                            assert(self.lock_table@[find_lock(table0, b)] == table0[find_lock(
                                table0,
                                b,
                            )]);
                        }
                    }
                }
                Ok(())
            },
            Some(i) => {
                let d = self.lock_table[i].1;
                if d == -1 || d == i32::MAX {
                    return Err(DbError::LockTimeout);
                }
                let key = self.lock_table[i].0.clone();
                self.lock_table[i] = (key, d + 1);
                proof {
                    lemma_find_lock(table0, block_id@);
                    assert forall|b: BlockIdView| true implies #[trigger] find_lock(
                        self.lock_table@,
                        b,
                    ) == find_lock(table0, b) by {
                        lemma_find_lock_same_keys(table0, self.lock_table@, b);
                    }
                    lemma_find_lock(self.lock_table@, block_id@);
                    assert forall|b: BlockIdView|
                        b != block_id@ implies self.descriptor(b) == old(self).descriptor(b) by {
                        lemma_find_lock(table0, b);
                        if find_lock(table0, b) >= 0 {
                            assert(table0[find_lock(table0, b)].0@ == b);
                            assert(find_lock(table0, b) != i);
                            assert(self.lock_table@[find_lock(table0, b)] == table0[find_lock(
                                table0,
                                b,
                            )]);
                        }
                    }
                }
                Ok(())
            },
        }
    }

    /// Requests an exclusive lock: granted only when the block is unlocked.
    pub fn acquire_x_lock(&mut self, block_id: &BlockId) -> (r: Result<(), DbError>)
        requires
            old(self).inv(),
        ensures
            final(self).inv(),
            if old(self).descriptor(block_id@) != 0 {
                r == Err::<(), DbError>(DbError::LockTimeout) && final(self).lock_table@ == old(
                    self,
                ).lock_table@
            } else {
                r == Ok::<(), DbError>(()) && final(self).descriptor(block_id@) == -1 && forall|
                    b: BlockIdView,
                |
                    b != block_id@ ==> final(self).descriptor(b) == old(self).descriptor(b)
            },
    {
        let ghost table0 = self.lock_table@;
        match self.lookup(block_id) {
            Some(_) => Err(DbError::LockTimeout),
            None => {
                self.lock_table.push((block_id.clone(), -1));
                proof {
                    lemma_find_lock(table0, block_id@);
                    assert forall|b: BlockIdView| true implies #[trigger] find_lock(
                        self.lock_table@,
                        b,
                    ) == if b == block_id@ {
                        table0.len() as int
                    } else {
                        find_lock(table0, b)
                    } by {
                        lemma_find_lock_push(table0, self.lock_table@[table0.len() as int], b);
                        lemma_find_lock(table0, b);
                    }
                    assert forall|b: BlockIdView|
                        b != block_id@ implies self.descriptor(b) == old(self).descriptor(b) by {
                        lemma_find_lock(table0, b);
                        if find_lock(table0, b) >= 0 {
                            assert(self.lock_table@[find_lock(table0, b)] == table0[find_lock(
                                table0,
                                b,
                            )]);
                        }
                    }
                }
                Ok(())
            },
        }
    }

    /// Releases every lock this table holds: called exactly once, at
    /// transaction end.
    pub fn release(&mut self)
        ensures
            final(self).inv(),
            forall|b: BlockIdView| final(self).descriptor(b) == 0,
    {
        self.lock_table = Vec::new();
        proof {
            assert forall|b: BlockIdView| self.descriptor(b) == 0 by {
                lemma_find_lock(self.lock_table@, b);
            }
        }
    }
}

proof fn lemma_find_lock_push(table: Seq<(BlockId, i32)>, e: (BlockId, i32), b: BlockIdView)
    ensures
        b == e.0@ && find_lock(table, b) == -1 ==> find_lock(table.push(e), b) == table.len(),
        b != e.0@ || find_lock(table, b) >= 0 ==> find_lock(table.push(e), b) == find_lock(
            table,
            b,
        ),
    decreases table.len(),
{
    let p = table.push(e);
    assert(p.len() == table.len() + 1);
    lemma_find_lock(table, b);
    lemma_find_lock(p, b);
    if table.len() == 0 {
        assert(p[0] == e);
        assert(p.drop_first() =~= Seq::<(BlockId, i32)>::empty());
        if b == e.0@ {
            assert(find_lock(p, b) == 0);
        }
    } else {
        assert(p[0] == table[0]);
        assert(p.drop_first() =~= table.drop_first().push(e));
        lemma_find_lock_push(table.drop_first(), e, b);
        lemma_find_lock(table.drop_first(), b);
        if b == e.0@ && find_lock(table, b) == -1 {
            assert(table[0].0@ != b);
            assert(find_lock(table.drop_first(), b) == -1);
            assert(find_lock(p.drop_first(), b) == table.len() - 1);
            assert(find_lock(p, b) == table.len());
        }
    }
}

proof fn lemma_find_lock_same_keys(
    a: Seq<(BlockId, i32)>,
    b: Seq<(BlockId, i32)>,
    name: BlockIdView,
)
    requires
        a.len() == b.len(),
        forall|j: int| 0 <= j < a.len() ==> (#[trigger] a[j].0)@ == (#[trigger] b[j].0)@,
    ensures
        find_lock(a, name) == find_lock(b, name),
    decreases a.len(),
{
    if a.len() > 0 {
        assert(forall|j: int|
            0 <= j < a.drop_first().len() ==> a.drop_first()[j] == a[j + 1] && b.drop_first()[j]
                == b[j + 1]);
        lemma_find_lock_same_keys(a.drop_first(), b.drop_first(), name);
    }
}

} // verus!
