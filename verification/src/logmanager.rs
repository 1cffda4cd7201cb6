//! The write-ahead log: an append-only sequence of records over the block
//! store, and a most-recent-first iterator over them.
//!
//! Records are packed back-to-front within each block: offset 0 holds a
//! 4-byte boundary pointer to the start of the most recently written record,
//! and each record lies immediately before the one written after it. Reading
//! a block forward from its boundary therefore yields its records newest
//! first; walking block numbers downward continues into older blocks.

use vstd::prelude::*;
use crate::codec::{be_of_i32, lemma_be_i32_nonneg};
use crate::filemanager::{
    BlockId,
    BlockStore,
    MAX_BLOCK_SIZE,
    Page,
    PageBuilder,
    len_prefixed,
    page_bytes_at,
    page_u32_at,
    zero_block,
};

verus! {

/// The records laid out back-to-back from `pos` to the end of `b`, newest
/// first; absent when the bytes from `pos` on are not an exact packing.
pub open spec fn parse_from(b: Seq<u8>, pos: int) -> Option<Seq<Seq<u8>>>
    decreases b.len() - pos,
    when 0 <= pos <= b.len()
{
    if pos == b.len() {
        Some(Seq::empty())
    } else if pos + 4 > b.len() {
        None
    } else {
        let n = page_u32_at(b, pos) as int;
        if pos + 4 + n > b.len() {
            None
        } else {
            match parse_from(b, pos + 4 + n) {
                Some(rest) => Some(seq![page_bytes_at(b, pos)] + rest),
                None => None,
            }
        }
    }
}

/// The boundary pointer of a log block: where its newest record starts.
pub open spec fn block_boundary(b: Seq<u8>) -> int {
    page_u32_at(b, 0) as int
}

/// Is `b` a well-formed log block of size `bs`?
pub open spec fn block_parses(b: Seq<u8>, bs: int) -> bool {
    &&& b.len() == bs
    &&& 4 <= block_boundary(b) <= bs
    &&& parse_from(b, block_boundary(b)) is Some
}

/// The records of one well-formed log block, newest first.
pub open spec fn block_records(b: Seq<u8>) -> Seq<Seq<u8>>
    recommends
        parse_from(b, block_boundary(b)) is Some,
{
    parse_from(b, block_boundary(b))->Some_0
}

/// The records of a run of log blocks, newest first: the last block is the
/// newest, and within each block the packing is newest first already.
pub open spec fn chain_records(blocks: Seq<Seq<u8>>) -> Seq<Seq<u8>>
    decreases blocks.len(),
{
    if blocks.len() == 0 {
        Seq::empty()
    } else {
        block_records(blocks.last()) + chain_records(blocks.drop_last())
    }
}

/// Parsing reads nothing below `pos`: equal suffixes parse equally.
pub proof fn lemma_parse_frame(a: Seq<u8>, b: Seq<u8>, pos: int)
    requires
        0 <= pos <= a.len(),
        a.len() == b.len(),
        forall|j: int| pos <= j < a.len() ==> a[j] == b[j],
    ensures
        parse_from(a, pos) == parse_from(b, pos),
    decreases a.len() - pos,
{
    if pos == a.len() {
    } else if pos + 4 > a.len() {
    } else {
        assert(a.subrange(pos, pos + 4) =~= b.subrange(pos, pos + 4));
        let n = page_u32_at(a, pos) as int;
        if pos + 4 + n <= a.len() {
            assert(a.subrange(pos + 4, pos + 4 + n) =~= b.subrange(pos + 4, pos + 4 + n));
            lemma_parse_frame(a, b, pos + 4 + n);
        }
    }
}

/// Placing one length-prefixed record immediately before the old boundary
/// puts it, newest, in front of the old records.
pub proof fn lemma_parse_prepend(b0: Seq<u8>, b1: Seq<u8>, recpos: int, rec: Seq<u8>)
    requires
        0 <= recpos,
        recpos + 4 + rec.len() <= b0.len(),
        b0.len() == b1.len(),
        b0.len() <= MAX_BLOCK_SIZE,
        parse_from(b0, recpos + 4 + rec.len()) is Some,
        forall|j: int| recpos + 4 + rec.len() <= j < b1.len() ==> b1[j] == b0[j],
        b1.subrange(recpos, recpos + 4 + rec.len()) == len_prefixed(rec),
    ensures
        parse_from(b1, recpos) == Some(
            seq![rec] + parse_from(b0, recpos + 4 + rec.len())->Some_0,
        ),
{
    let bnd = recpos + 4 + rec.len();
    lemma_parse_frame(b0, b1, bnd);
    assert(b1.subrange(recpos, recpos + 4) =~= len_prefixed(rec).subrange(0, 4));
    assert(b1.subrange(recpos, recpos + 4) =~= be_of_i32(rec.len() as i32));
    lemma_be_i32_nonneg(rec.len() as i32);
    assert(page_u32_at(b1, recpos) == rec.len());
    assert(page_bytes_at(b1, recpos) =~= len_prefixed(rec).subrange(4, 4 + rec.len() as int));
    assert(page_bytes_at(b1, recpos) =~= rec);
}

/// Replacing the last block of the run replaces its contribution.
pub proof fn lemma_chain_update_last(blocks: Seq<Seq<u8>>, b: Seq<u8>)
    requires
        blocks.len() >= 1,
    ensures
        chain_records(blocks.update(blocks.len() - 1, b)) == block_records(b) + chain_records(
            blocks.drop_last(),
        ),
{
    let u = blocks.update(blocks.len() - 1, b);
    assert(u.last() == b);
    assert(u.drop_last() =~= blocks.drop_last());
}

/// The records of the whole durable log file, newest first.
pub open spec fn durable_records(fm: BlockStore, name: Seq<char>) -> Seq<Seq<u8>> {
    chain_records(fm.file_blocks(name))
}

/// The write-ahead log. One durable append-only file addressed as a
/// sequence of fixed-size blocks; the tail block is buffered in memory.
/// `latest_lsn` counts records appended in this session; a record is durable
/// exactly when its LSN is at most `last_lsn`.
pub struct LogManager {
    pub log_file: String,
    pub log_page: Page,
    pub block_id: BlockId,
    pub latest_lsn: i32,
    pub last_lsn: i32,
}

impl LogManager {
    /// Well-formedness against the store: the log file exists, every block
    /// of it and the in-memory tail are well-formed log blocks, the manager
    /// sits on the last block, and the durable tail holds exactly the
    /// records of the in-memory tail that lie at or below `last_lsn`.
    pub open spec fn wf(self, fm: BlockStore) -> bool {
        let bs = fm.spec_block_size() as int;
        let name = self.log_file@;
        let blocks = fm.file_blocks(name);
        &&& fm.inv()
        &&& 8 <= fm.spec_block_size()
        &&& fm.has_file(name)
        &&& blocks.len() >= 1
        &&& self.block_id@.file_name == name
        &&& self.block_id@.block_num == blocks.len() - 1
        &&& forall|i: int| 0 <= i < blocks.len() ==> block_parses(#[trigger] blocks[i], bs)
        &&& block_parses(self.log_page@, bs)
        &&& 0 <= self.last_lsn <= self.latest_lsn
        &&& self.latest_lsn - self.last_lsn <= block_records(self.log_page@).len()
        &&& block_records(blocks.last()) == block_records(self.log_page@).skip(
            self.latest_lsn - self.last_lsn,
        )
    }

    /// Every record the log holds, newest first, including records still
    /// only in the in-memory tail.
    pub open spec fn all_records(self, fm: BlockStore) -> Seq<Seq<u8>> {
        block_records(self.log_page@) + chain_records(
            fm.file_blocks(self.log_file@).drop_last(),
        )
    }

    /// The durable log is exactly the suffix of the records at or below
    /// `last_lsn`: the newest `latest_lsn - last_lsn` records are not yet on
    /// the store.
    pub proof fn lemma_durable_is_suffix(self, fm: BlockStore)
        requires
            self.wf(fm),
        ensures
            durable_records(fm, self.log_file@) == self.all_records(fm).skip(
                self.latest_lsn - self.last_lsn,
            ),
    {
        let blocks = fm.file_blocks(self.log_file@);
        let d = self.latest_lsn - self.last_lsn;
        assert(chain_records(blocks) == block_records(blocks.last()) + chain_records(
            blocks.drop_last(),
        ));
        assert(durable_records(fm, self.log_file@) =~= self.all_records(fm).skip(d));
    }

    pub fn builder(log_file: String) -> (r: LogManagerBuilder)
        ensures
            r.log_file@ == log_file@,
    {
        LogManagerBuilder::new(log_file)
    }

    /// Does a record of `len` bytes fit in the tail block, leaving room for
    /// the boundary header?
    pub open spec fn tail_fits(self, len: int) -> bool {
        block_boundary(self.log_page@) - (len + 4) >= 4
    }

    /// Writes the tail page to its block when records above `last_lsn`
    /// exist, and raises `last_lsn` to `latest_lsn`: afterwards every record
    /// is durable.
    pub fn flush(&mut self, fm: &mut BlockStore)
        requires
            old(self).wf(*old(fm)),
        ensures
            final(self).wf(*final(fm)),
            final(self).log_file == old(self).log_file,
            final(self).log_page == old(self).log_page,
            final(self).block_id == old(self).block_id,
            final(self).latest_lsn == old(self).latest_lsn,
            final(self).last_lsn == final(self).latest_lsn,
            final(self).all_records(*final(fm)) == old(self).all_records(*old(fm)),
            durable_records(*final(fm), old(self).log_file@) == old(self).all_records(*old(fm)),
            final(fm).spec_block_size() == old(fm).spec_block_size(),
            final(fm).is_new() == old(fm).is_new(),
            forall|n: Seq<char>|
                n != old(self).log_file@ ==> final(fm).has_file(n) == old(fm).has_file(n)
                    && final(fm).file_blocks(n) == old(fm).file_blocks(n),
            final(fm).has_file(old(self).log_file@),
            final(fm).file_blocks(old(self).log_file@).len() == old(fm).file_blocks(
                old(self).log_file@,
            ).len(),
            old(self).latest_lsn == old(self).last_lsn ==> *final(fm) == *old(fm),
    {
        proof {
            fm.lemma_inv_facts();
        }
        if self.latest_lsn > self.last_lsn {
            let ghost blocks0 = fm.file_blocks(self.log_file@);
            let wr = fm.write(&self.block_id, &self.log_page);
            proof {
                assert(wr is Ok);
                let blocks = fm.file_blocks(self.log_file@);
                assert(blocks == blocks0.update(blocks0.len() - 1, self.log_page@));
                lemma_chain_update_last(blocks0, self.log_page@);
                assert(blocks.last() == self.log_page@);
                assert(blocks.drop_last() =~= blocks0.drop_last());
            }
            self.last_lsn = self.latest_lsn;
            proof {
                assert(block_records(fm.file_blocks(self.log_file@).last()) =~= block_records(
                    self.log_page@,
                ).skip(0));
            }
        } else {
            proof {
                assert(block_records(fm.file_blocks(self.log_file@).last()) =~= block_records(
                    self.log_page@,
                ));
                self.lemma_durable_is_suffix(*fm);
            }
        }
    }

    /// Starts a fresh tail block: appends a zero-filled block to the log
    /// file, resets the tail page with its boundary at the block's end, and
    /// writes it out. Callable only when everything so far is durable.
    fn append_new_block(&mut self, fm: &mut BlockStore)
        requires
            old(self).wf(*old(fm)),
            old(self).last_lsn == old(self).latest_lsn,
        ensures
            final(self).wf(*final(fm)),
            final(self).log_file == old(self).log_file,
            final(self).latest_lsn == old(self).latest_lsn,
            final(self).last_lsn == old(self).last_lsn,
            block_records(final(self).log_page@) == Seq::<Seq<u8>>::empty(),
            block_boundary(final(self).log_page@) == final(fm).spec_block_size(),
            final(self).all_records(*final(fm)) == old(self).all_records(*old(fm)),
            durable_records(*final(fm), old(self).log_file@) == old(self).all_records(*old(fm)),
            final(fm).file_blocks(old(self).log_file@).len() == old(fm).file_blocks(old(self).log_file@).len() + 1,
            final(fm).spec_block_size() == old(fm).spec_block_size(),
            final(fm).is_new() == old(fm).is_new(),
            forall|n: Seq<char>|
                n != old(self).log_file@ ==> final(fm).has_file(n) == old(fm).has_file(n)
                    && final(fm).file_blocks(n) == old(fm).file_blocks(n),
    {
        proof {
            fm.lemma_inv_facts();
            self.lemma_durable_is_suffix(*fm);
        }
        let ghost blocks0 = fm.file_blocks(self.log_file@);
        let bs = fm.block_size();
        let blid = fm.append(self.log_file.as_str());
        self.log_page.flush();
        let si = self.log_page.set_int(0, Some(bs as i32));
        proof {
            assert(si is Ok);
            lemma_be_i32_nonneg(bs as i32);
            assert(self.log_page@.subrange(0, 4) =~= be_of_i32(bs as i32));
            assert(page_u32_at(self.log_page@, 0) == bs);
            assert(block_parses(self.log_page@, bs as int));
        }
        let ghost blocks1 = fm.file_blocks(self.log_file@);
        let wr = fm.write(&blid, &self.log_page);
        proof {
            assert(wr is Ok);
        }
        self.block_id = blid;
        proof {
            let name = self.log_file@;
            let blocks = fm.file_blocks(name);
            assert(blocks1 == blocks0.push(zero_block(bs as int)));
            assert(blocks == blocks1.update(blocks1.len() - 1, self.log_page@));
            assert(blocks =~= blocks0.push(self.log_page@));
            assert(blocks.last() == self.log_page@);
            assert(blocks.drop_last() =~= blocks0);
            assert(block_records(self.log_page@) =~= Seq::<Seq<u8>>::empty());
            assert(block_records(blocks.last()) =~= block_records(self.log_page@).skip(0));
            assert(old(self).all_records(*old(fm)) == block_records(old(self).log_page@)
                + chain_records(blocks0.drop_last()));
            assert(chain_records(blocks0) == block_records(blocks0.last()) + chain_records(
                blocks0.drop_last(),
            ));
            assert(block_records(blocks0.last()) == block_records(old(self).log_page@).skip(0));
            assert(block_records(blocks0.last()) =~= block_records(old(self).log_page@));
            assert(final(self).all_records(*final(fm)) =~= chain_records(blocks0));
            self.lemma_durable_is_suffix(*fm);
        }
    }

    /// Flushes, then returns an iterator positioned at the tail block. The
    /// iterator yields every record the log holds, newest first and byte
    /// for byte: with `append`'s contract this says that appending and then
    /// iterating hands back the appended records first, most recent first.
    pub fn iterator(&mut self, fm: &mut BlockStore) -> (it: LogIterator)
        requires
            old(self).wf(*old(fm)),
        ensures
            final(self).wf(*final(fm)),
            final(self).log_file == old(self).log_file,
            final(self).latest_lsn == old(self).latest_lsn,
            final(self).last_lsn == final(self).latest_lsn,
            final(self).all_records(*final(fm)) == old(self).all_records(*old(fm)),
            durable_records(*final(fm), old(self).log_file@) == old(self).all_records(*old(fm)),
            it.wf(*final(fm)),
            it.block_id@.file_name == old(self).log_file@,
            it.remaining(*final(fm)) == old(self).all_records(*old(fm)),
            final(fm).file_blocks(old(self).log_file@).len() == old(fm).file_blocks(
                old(self).log_file@,
            ).len(),
            final(fm).spec_block_size() == old(fm).spec_block_size(),
            final(fm).is_new() == old(fm).is_new(),
            forall|n: Seq<char>|
                n != old(self).log_file@ ==> final(fm).has_file(n) == old(fm).has_file(n)
                    && final(fm).file_blocks(n) == old(fm).file_blocks(n),
    {
        self.flush(fm);
        let blk = self.block_id.clone();
        let it = LogIterator::new(fm, blk);
        proof {
            let name = self.log_file@;
            let blocks = fm.file_blocks(name);
            assert(blocks.take(self.block_id@.block_num as int + 1) =~= blocks);
        }
        it
    }

    /// Appends one record to the log and returns its LSN. The record is
    /// placed immediately before the current boundary; when it does not fit,
    /// the tail is flushed and a fresh block started first. The record
    /// becomes the newest of the log; it is durable only after `flush`.
    #[verifier::rlimit(80)]
    pub fn append(&mut self, fm: &mut BlockStore, rec: Vec<u8>) -> (r: i32)
        requires
            old(self).wf(*old(fm)),
            rec@.len() + 8 <= old(fm).spec_block_size(),
            old(self).latest_lsn < i32::MAX,
        ensures
            final(self).wf(*final(fm)),
            final(self).log_file == old(self).log_file,
            final(self).latest_lsn == old(self).latest_lsn + 1,
            r == final(self).latest_lsn,
            final(self).last_lsn == if old(self).tail_fits(rec@.len() as int) {
                old(self).last_lsn
            } else {
                old(self).latest_lsn
            },
            final(self).all_records(*final(fm)) == seq![rec@] + old(self).all_records(*old(fm)),
            durable_records(*final(fm), old(self).log_file@) == if old(self).tail_fits(
                rec@.len() as int,
            ) {
                durable_records(*old(fm), old(self).log_file@)
            } else {
                old(self).all_records(*old(fm))
            },
            final(fm).file_blocks(old(self).log_file@).len() == old(fm).file_blocks(old(self).log_file@).len() + if old(self).tail_fits(rec@.len() as int) {
                0int
            } else {
                1int
            },
            final(fm).spec_block_size() == old(fm).spec_block_size(),
            final(fm).is_new() == old(fm).is_new(),
            forall|n: Seq<char>|
                n != old(self).log_file@ ==> final(fm).has_file(n) == old(fm).has_file(n)
                    && final(fm).file_blocks(n) == old(fm).file_blocks(n),
    {
        proof {
            fm.lemma_inv_facts();
            crate::codec::lemma_be_u32_round_trip();
        }
        let reclen = rec.len();
        let bytes_needed = reclen + 4;
        let b = match self.log_page.get_int(0) {
            Some(b) => b,
            None => 0,
        };
        proof {
            crate::codec::lemma_i32_of_small_u32(page_u32_at(self.log_page@, 0));
            assert(b == block_boundary(self.log_page@));
        }
        let boundary: usize;
        if (b as usize) < bytes_needed + 4 {
            self.flush(fm);
            self.append_new_block(fm);
            boundary = fm.block_size();
        } else {
            boundary = b as usize;
        }
        let ghost mid_self = *self;
        let ghost mid_fm = *fm;
        let recpos = boundary - bytes_needed;
        let ghost page0 = self.log_page@;
        let sb = self.log_page.set_bytes(recpos, Some(rec.as_slice()));
        let ghost page1 = self.log_page@;
        let si = self.log_page.set_int(0, Some(recpos as i32));
        proof {
            assert(sb is Ok);
            assert(si is Ok);
        }
        self.latest_lsn = self.latest_lsn + 1;
        proof {
            let bs = fm.spec_block_size() as int;
            let page2 = self.log_page@;
            crate::codec::lemma_splice_facts(page0, recpos as int, len_prefixed(rec@));
            crate::codec::lemma_splice_facts(page1, 0, be_of_i32(recpos as i32));
            lemma_be_i32_nonneg(recpos as i32);
            assert(page2.subrange(0, 4) =~= be_of_i32(recpos as i32));
            assert(block_boundary(page2) == recpos);
            assert forall|j: int| recpos + 4 + rec@.len() <= j < page2.len() implies page2[j]
                == page0[j] by {
                assert(page1[j] == page0[j]);
                assert(page2[j] == page1[j]);
            }
            assert(page2.subrange(recpos as int, recpos + 4 + rec@.len()) =~= page1.subrange(
                recpos as int,
                recpos + 4 + rec@.len(),
            ));
            assert(page1.subrange(recpos as int, recpos + 4 + rec@.len()) =~= len_prefixed(rec@));
            assert(parse_from(page0, recpos + 4 + rec@.len()) == parse_from(
                page0,
                block_boundary(page0),
            ));
            lemma_parse_prepend(page0, page2, recpos as int, rec@);
            assert(block_records(page2) == seq![rec@] + block_records(page0));
            assert(block_records(page2).skip(1) =~= block_records(page0));
            let d0 = mid_self.latest_lsn - mid_self.last_lsn;
            let blocks = fm.file_blocks(self.log_file@);
            assert(block_records(blocks.last()) == block_records(page0).skip(d0));
            assert(block_records(page2).skip(d0 + 1) =~= block_records(page0).skip(d0));
            assert(final(self).all_records(*final(fm)) =~= seq![rec@] + mid_self.all_records(
                mid_fm,
            ));
        }
        self.latest_lsn
    }
}

/// Constructs a `LogManager` over a store: reopens the existing log file's
/// last block, or creates the file with one fresh block.
pub struct LogManagerBuilder {
    pub log_file: String,
}

impl LogManagerBuilder {
    pub fn new(log_file: String) -> (r: Self)
        ensures
            r.log_file@ == log_file@,
    {
        LogManagerBuilder { log_file }
    }

    /// A store over which the log file can be opened: every block of the
    /// file, if it exists, is a well-formed log block.
    pub open spec fn can_open(self, fm: BlockStore) -> bool {
        &&& fm.inv()
        &&& 8 <= fm.spec_block_size()
        &&& forall|i: int|
            0 <= i < fm.file_blocks(self.log_file@).len() ==> block_parses(
                #[trigger] fm.file_blocks(self.log_file@)[i],
                fm.spec_block_size() as int,
            )
    }

    pub fn build(self, fm: &mut BlockStore) -> (r: LogManager)
        requires
            self.can_open(*old(fm)),
        ensures
            r.wf(*final(fm)),
            r.log_file@ == self.log_file@,
            r.latest_lsn == 0,
            r.last_lsn == 0,
            r.all_records(*final(fm)) == chain_records(old(fm).file_blocks(self.log_file@)),
            durable_records(*final(fm), self.log_file@) == chain_records(
                old(fm).file_blocks(self.log_file@),
            ),
            final(fm).spec_block_size() == old(fm).spec_block_size(),
            final(fm).inv(),
            forall|n: Seq<char>|
                n != self.log_file@ ==> final(fm).has_file(n) == old(fm).has_file(n)
                    && final(fm).file_blocks(n) == old(fm).file_blocks(n),
            old(fm).file_blocks(self.log_file@).len() == 0 ==> final(fm).file_blocks(
                self.log_file@,
            ).len() == 1,
            old(fm).file_blocks(self.log_file@).len() >= 1 ==> (forall|n: Seq<char>|
                final(fm).has_file(n) == old(fm).has_file(n) && #[trigger] final(fm).file_blocks(n)
                    == old(fm).file_blocks(n)) && r.log_page@ == old(fm).file_blocks(
                self.log_file@,
            ).last() && final(fm).is_new() == old(fm).is_new(),
    {
        proof {
            old(fm).lemma_inv_facts();
            if !old(fm).has_file(self.log_file@) {
                old(fm).lemma_absent_file_empty(self.log_file@);
            }
        }
        let bs = fm.block_size();
        let file_len = fm.length(self.log_file.as_str());
        let needs_fresh_block: bool = match file_len {
            None => true,
            Some(n) => n == 0,
        };
        if needs_fresh_block {
            let ghost blocks0 = fm.file_blocks(self.log_file@);
            proof {
                if !fm.has_file(self.log_file@) {
                    fm.lemma_absent_file_empty(self.log_file@);
                }
            }
            let blid = fm.append(self.log_file.as_str());
            let mut page = PageBuilder::new().block_size(bs).with_buffer().build();
            let si = page.set_int(0, Some(bs as i32));
            proof {
                assert(si is Ok);
                lemma_be_i32_nonneg(bs as i32);
                assert(page@.subrange(0, 4) =~= be_of_i32(bs as i32));
                assert(page_u32_at(page@, 0) == bs);
                assert(parse_from(page@, bs as int) is Some);
                assert(block_parses(page@, bs as int));
            }
            let wr = fm.write(&blid, &page);
            proof {
                assert(wr is Ok);
            }
            let r = LogManager {
                log_file: self.log_file,
                log_page: page,
                block_id: blid,
                latest_lsn: 0,
                last_lsn: 0,
            };
            proof {
                let name = r.log_file@;
                let blocks = fm.file_blocks(name);
                assert(blocks =~= blocks0.push(page@));
                assert(blocks.last() == page@);
                assert(blocks.drop_last() =~= blocks0);
                assert(block_records(blocks.last()) =~= block_records(page@).skip(0));
                assert(blocks0.len() == 0);
                assert(chain_records(blocks0) =~= Seq::<Seq<u8>>::empty());
                assert(block_records(page@) =~= Seq::<Seq<u8>>::empty());
                assert(r.all_records(*fm) =~= chain_records(blocks0));
                r.lemma_durable_is_suffix(*fm);
                assert(durable_records(*fm, name) =~= r.all_records(*fm));
            }
            r
        } else {
            let last_num = match file_len {
                Some(n) => n - 1,
                None => 0,
            };
            let blid = BlockId::new(self.log_file.as_str(), last_num);
            let mut page = PageBuilder::new().block_size(bs).with_buffer().build();
            let rd = fm.read(&blid, &mut page);
            proof {
                assert(rd is Ok);
            }
            let r = LogManager {
                log_file: self.log_file,
                log_page: page,
                block_id: blid,
                latest_lsn: 0,
                last_lsn: 0,
            };
            proof {
                let name = r.log_file@;
                let blocks = fm.file_blocks(name);
                assert(r.log_page@ == blocks.last());
                assert(block_records(blocks.last()) =~= block_records(r.log_page@).skip(0));
                assert(r.all_records(*fm) == chain_records(blocks));
                r.lemma_durable_is_suffix(*fm);
            }
            r
        }
    }
}

/// Most-recent-first lazy iteration over the durable log records: begins at
/// a given block, scans forward from its boundary, and steps to the
/// previous block when one is exhausted.
pub struct LogIterator {
    pub log_page: Page,
    pub block_id: BlockId,
    pub current_offset: usize,
}

impl LogIterator {
    /// Well-formedness against the store: the iterator sits at a record
    /// boundary of a copy of its current block, and every block at or below
    /// it is a well-formed log block.
    pub open spec fn wf(self, fm: BlockStore) -> bool {
        let bs = fm.spec_block_size() as int;
        let name = self.block_id@.file_name;
        let blocks = fm.file_blocks(name);
        &&& fm.inv()
        &&& 8 <= fm.spec_block_size()
        &&& fm.has_file(name)
        &&& self.block_id@.block_num < blocks.len()
        &&& forall|i: int|
            0 <= i <= self.block_id@.block_num ==> block_parses(#[trigger] blocks[i], bs)
        &&& self.log_page@ == blocks[self.block_id@.block_num as int]
        &&& 4 <= self.current_offset <= bs
        &&& parse_from(self.log_page@, self.current_offset as int) is Some
    }

    /// The records not yet yielded, newest first: the rest of the current
    /// block, then every block below it.
    pub open spec fn remaining(self, fm: BlockStore) -> Seq<Seq<u8>> {
        parse_from(self.log_page@, self.current_offset as int)->Some_0 + chain_records(
            fm.file_blocks(self.block_id@.file_name).take(self.block_id@.block_num as int),
        )
    }

    /// Starts iterating at the boundary of the given block.
    pub fn new(fm: &mut BlockStore, blk: BlockId) -> (it: LogIterator)
        requires
            old(fm).inv(),
            8 <= old(fm).spec_block_size(),
            old(fm).has_file(blk@.file_name),
            blk@.block_num < old(fm).file_blocks(blk@.file_name).len(),
            forall|i: int|
                0 <= i <= blk@.block_num ==> block_parses(
                    #[trigger] old(fm).file_blocks(blk@.file_name)[i],
                    old(fm).spec_block_size() as int,
                ),
        ensures
            it.wf(*final(fm)),
            it.block_id@ == blk@,
            it.remaining(*final(fm)) == chain_records(
                old(fm).file_blocks(blk@.file_name).take(blk@.block_num as int + 1),
            ),
            final(fm).inv(),
            final(fm).spec_block_size() == old(fm).spec_block_size(),
            final(fm).is_new() == old(fm).is_new(),
            forall|n: Seq<char>|
                final(fm).has_file(n) == old(fm).has_file(n) && final(fm).file_blocks(n) == old(fm).file_blocks(n),
    {
        proof {
            fm.lemma_inv_facts();
        }
        let bs = fm.block_size();
        let mut page = PageBuilder::new().block_size(bs).with_buffer().build();
        let rd = fm.read(&blk, &mut page);
        proof {
            assert(rd is Ok);
        }
        let b = match page.get_int(0) {
            Some(b) => b,
            None => 0,
        };
        proof {
            crate::codec::lemma_i32_of_small_u32(page_u32_at(page@, 0));
        }
        let it = LogIterator { log_page: page, block_id: blk, current_offset: b as usize };
        proof {
            let name = it.block_id@.file_name;
            let blocks = fm.file_blocks(name);
            let bn = it.block_id@.block_num as int;
            assert(blocks.take(bn + 1).last() == blocks[bn]);
            assert(blocks.take(bn + 1).drop_last() =~= blocks.take(bn));
            assert(chain_records(blocks.take(bn + 1)) == block_records(blocks[bn])
                + chain_records(blocks.take(bn)));
        }
        it
    }

    /// Yields the next record, newest first, or reports the end of the log.
    #[verifier::loop_isolation(false)]
    pub fn next(&mut self, fm: &mut BlockStore) -> (r: Option<Vec<u8>>)
        requires
            old(self).wf(*old(fm)),
        ensures
            final(self).wf(*final(fm)),
            final(self).block_id@.file_name == old(self).block_id@.file_name,
            final(fm).inv(),
            final(fm).spec_block_size() == old(fm).spec_block_size(),
            final(fm).is_new() == old(fm).is_new(),
            forall|n: Seq<char>|
                final(fm).has_file(n) == old(fm).has_file(n) && final(fm).file_blocks(n) == old(fm).file_blocks(n),
            match r {
                Some(v) => old(self).remaining(*old(fm)).len() > 0 && v@ == old(self).remaining(
                    *old(fm),
                )[0] && final(self).remaining(*final(fm)) == old(self).remaining(
                    *old(fm),
                ).drop_first(),
                None => old(self).remaining(*old(fm)).len() == 0 && final(self).remaining(
                    *final(fm),
                ).len() == 0,
            },
    {
        proof {
            fm.lemma_inv_facts();
        }
        while self.current_offset >= self.log_page.block_size() && self.block_id.block_num() > 0
            invariant
                self.wf(*fm),
                self.block_id@.file_name == old(self).block_id@.file_name,
                self.remaining(*fm) == old(self).remaining(*old(fm)),
                fm.inv(),
                fm.spec_block_size() == old(fm).spec_block_size(),
                fm.is_new() == old(fm).is_new(),
                forall|n: Seq<char>|
                    fm.has_file(n) == old(fm).has_file(n) && fm.file_blocks(n) == old(fm).file_blocks(n),
            decreases self.block_id@.block_num,
        {
            let ghost pre = *self;
            let ghost prefm = *fm;
            let num = self.block_id.block_num() - 1;
            let name = self.block_id.file_name();
            self.block_id = BlockId::new(name.as_str(), num);
            let rd = fm.read(&self.block_id, &mut self.log_page);
            proof {
                assert(rd is Ok);
            }
            let b = match self.log_page.get_int(0) {
                Some(b) => b,
                None => 0,
            };
            proof {
                crate::codec::lemma_i32_of_small_u32(page_u32_at(self.log_page@, 0));
            }
            self.current_offset = b as usize;
            proof {
                let blocks = fm.file_blocks(self.block_id@.file_name);
                let bn = num as int;
                assert(parse_from(pre.log_page@, pre.current_offset as int)->Some_0 =~= Seq::<
                    Seq<u8>,
                >::empty());
                assert(blocks.take(bn + 1).last() == blocks[bn]);
                assert(blocks.take(bn + 1).drop_last() =~= blocks.take(bn));
                assert(chain_records(blocks.take(bn + 1)) == block_records(blocks[bn])
                    + chain_records(blocks.take(bn)));
                assert(self.remaining(*fm) =~= pre.remaining(prefm));
            }
        }
        if self.current_offset >= self.log_page.block_size() {
            proof {
                assert(self.block_id@.block_num == 0);
                assert(parse_from(self.log_page@, self.current_offset as int)->Some_0 =~= Seq::<
                    Seq<u8>,
                >::empty());
                assert(fm.file_blocks(self.block_id@.file_name).take(0) =~= Seq::<
                    Seq<u8>,
                >::empty());
                assert(self.remaining(*fm).len() == 0);
            }
            return None;
        }
        let got = self.log_page.get_bytes(self.current_offset);
        proof {
            assert(parse_from(self.log_page@, self.current_offset as int) is Some);
            assert(got is Some);
        }
        let v = match got {
            Some(v) => v,
            None => Vec::new(),
        };
        let ghost pre = *self;
        self.current_offset = self.current_offset + 4 + v.len();
        proof {
            let cur = pre.current_offset as int;
            let page = self.log_page@;
            let n = page_u32_at(page, cur) as int;
            assert(parse_from(page, cur)->Some_0 == seq![page_bytes_at(page, cur)] + parse_from(
                page,
                cur + 4 + n,
            )->Some_0);
            assert(self.current_offset == cur + 4 + n);
            assert(self.remaining(*fm) =~= pre.remaining(*fm).drop_first());
        }
        Some(v)
    }
}


/// Checks that one block is a well-formed log block: its boundary is in
/// range and the records from the boundary pack the block exactly.
fn block_is_well_formed(block: &Vec<u8>, bs: usize) -> (r: bool)
    requires
        4 <= bs <= MAX_BLOCK_SIZE,
    ensures
        r == block_parses(block@, bs as int),
{
    if block.len() != bs {
        return false;
    }
    let bnd_u = crate::codec::u32_from_be(block[0], block[1], block[2], block[3]);
    proof {
        assert(seq![block@[0], block@[1], block@[2], block@[3]] =~= block@.subrange(0, 4));
    }
    if bnd_u < 4 || bnd_u > bs as u32 {
        return false;
    }
    let mut pos: usize = bnd_u as usize;
    while pos < bs
        invariant
            4 <= pos <= bs,
            bs == block@.len() <= MAX_BLOCK_SIZE,
            parse_from(block@, block_boundary(block@)) is Some <==> parse_from(
                block@,
                pos as int,
            ) is Some,
            4 <= block_boundary(block@) <= bs,
        decreases bs - pos,
    {
        if bs - pos < 4 {
            return false;
        }
        let n = crate::codec::u32_from_be(
            block[pos],
            block[pos + 1],
            block[pos + 2],
            block[pos + 3],
        );
        proof {
            assert(seq![block@[pos as int], block@[pos + 1], block@[pos + 2], block@[pos + 3]]
                =~= block@.subrange(pos as int, pos as int + 4));
            assert(n == page_u32_at(block@, pos as int));
        }
        if n > (bs - pos - 4) as u32 {
            return false;
        }
        pos = pos + 4 + (n as usize);
    }
    proof {
        assert(pos == bs);
        assert(parse_from(block@, pos as int) is Some);
    }
    true
}

/// Checks that the named file, if present, is a well-formed log: every
/// block of it parses as a log block. The unverified shell calls this
/// before reopening an engine over storage it loaded from outside, since a
/// corrupt log is data to be refused, not a caller's promise.
pub fn log_file_parses(fm: &BlockStore, name: &str) -> (r: bool)
    requires
        fm.inv(),
        4 <= fm.spec_block_size(),
    ensures
        r == forall|i: int|
            0 <= i < fm.file_blocks(name@).len() ==> block_parses(
                #[trigger] fm.file_blocks(name@)[i],
                fm.spec_block_size() as int,
            ),
{
    proof {
        fm.lemma_inv_facts();
    }
    let count = match fm.length(name) {
        None => {
            proof {
                fm.lemma_absent_file_empty(name@);
            }
            return true;
        },
        Some(c) => c,
    };
    let bs = fm.block_size();
    let mut i: usize = 0;
    while i < count
        invariant
            i <= count,
            count == fm.file_blocks(name@).len(),
            fm.has_file(name@),
            4 <= bs == fm.spec_block_size() <= MAX_BLOCK_SIZE,
            fm.inv(),
            forall|j: int|
                0 <= j < i ==> block_parses(
                    #[trigger] fm.file_blocks(name@)[j],
                    fm.spec_block_size() as int,
                ),
        decreases count - i,
    {
        let block = match fm.get_block(name, i) {
            Some(b) => b,
            None => {
                proof {
                    assert(false);
                }
                return false;
            },
        };
        if !block_is_well_formed(&block, bs) {
            return false;
        }
        i = i + 1;
    }
    true
}

} // verus!
