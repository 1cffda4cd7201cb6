//! Block identifiers, pages, and the block store.
//!
//! A `Page` is a typed, bounds-checked byte-buffer view over one block's
//! worth of memory. A `BlockStore` holds the durable state: named files, each
//! a sequence of fixed-size blocks. Strings are stored length-prefixed as
//! their UTF-8 bytes; a 4-byte big-endian length header is followed by the
//! raw bytes.

use vstd::prelude::*;
use vstd::string::StringSliceAdditionalSpecFns;
use vstd::string::StringExecFns;
use vstd::utf8::{valid_utf8, decode_utf8, encode_utf8};
use crate::codec::{be_of_i32, be_of_u32, i32_of_be, u32_of_be, splice, u32_from_be};
use crate::errors::DbError;

verus! {

/// The abstract value of a `BlockId`.
pub ghost struct BlockIdView {
    pub file_name: Seq<char>,
    pub block_num: nat,
}

/// Identifier of a fixed-size block within a named file. A value type:
/// equality is by both fields; immutable once created.
pub struct BlockId {
    file_name: String,
    block_num: usize,
}

impl View for BlockId {
    type V = BlockIdView;

    closed spec fn view(&self) -> BlockIdView {
        BlockIdView { file_name: self.file_name@, block_num: self.block_num as nat }
    }
}

impl BlockId {
    pub fn new(file_name: &str, block_num: usize) -> (r: BlockId)
        ensures
            r@.file_name == file_name@,
            r@.block_num == block_num,
    {
        BlockId { file_name: file_name.to_owned(), block_num }
    }

    pub fn file_name(&self) -> (r: String)
        ensures
            r@ == self@.file_name,
    {
        self.file_name.clone()
    }

    pub fn block_num(&self) -> (r: usize)
        ensures
            r == self@.block_num,
    {
        self.block_num
    }
}

impl Clone for BlockId {
    fn clone(&self) -> (r: Self)
        ensures
            r == *self,
            r@ == self@,
    {
        BlockId { file_name: self.file_name.clone(), block_num: self.block_num }
    }
}

impl PartialEq for BlockId {
    fn eq(&self, other: &Self) -> (r: bool) {
        self.file_name == other.file_name && self.block_num == other.block_num
    }
}

impl vstd::std_specs::cmp::PartialEqSpecImpl for BlockId {
    open spec fn obeys_eq_spec() -> bool {
        true
    }

    open spec fn eq_spec(&self, other: &BlockId) -> bool {
        self@ == other@
    }
}

/// Counters of blocks read from and written to the store.
#[derive(Clone, Copy)]
pub struct FileManagerStats {
    blocks_read: u64,
    blocks_write: u64,
}

impl FileManagerStats {
    pub fn new() -> (r: FileManagerStats)
        ensures
            r.blocks_read() == 0,
            r.blocks_write() == 0,
    {
        FileManagerStats { blocks_read: 0, blocks_write: 0 }
    }

    pub closed spec fn spec_blocks_read(&self) -> u64 {
        self.blocks_read
    }

    #[verifier::when_used_as_spec(spec_blocks_read)]
    pub fn blocks_read(&self) -> (r: u64)
        ensures
            r == self.spec_blocks_read(),
    {
        self.blocks_read
    }

    pub closed spec fn spec_blocks_write(&self) -> u64 {
        self.blocks_write
    }

    #[verifier::when_used_as_spec(spec_blocks_write)]
    pub fn blocks_write(&self) -> (r: u64)
        ensures
            r == self.spec_blocks_write(),
    {
        self.blocks_write
    }

    pub fn set_blocks_read(&mut self, count: u64)
        ensures
            final(self).blocks_read() == count,
            final(self).blocks_write() == old(self).blocks_write(),
    {
        self.blocks_read = count;
    }

    pub fn set_blocks_write(&mut self, count: u64)
        ensures
            final(self).blocks_write() == count,
            final(self).blocks_read() == old(self).blocks_read(),
    {
        self.blocks_write = count;
    }
}

/// The largest page or block size the engine accepts: lengths and boundary
/// pointers are stored as 4-byte signed integers, so they must fit in one.
pub const MAX_BLOCK_SIZE: usize = 0x7fff_ffff;

/// Does a 4-byte integer at `off` lie inside a page of length `len`?
pub open spec fn int_in_range(len: int, off: int) -> bool {
    off + 4 <= len
}

/// The unsigned value of the 4 big-endian bytes at `off`.
pub open spec fn page_u32_at(s: Seq<u8>, off: int) -> u32
    recommends
        0 <= off,
        int_in_range(s.len() as int, off),
{
    u32_of_be(s.subrange(off, off + 4))
}

/// The signed value of the 4 big-endian bytes at `off`.
pub open spec fn page_i32_at(s: Seq<u8>, off: int) -> i32
    recommends
        0 <= off,
        int_in_range(s.len() as int, off),
{
    i32_of_be(s.subrange(off, off + 4))
}

/// Does the length-prefixed byte run at `off` lie entirely inside the page?
pub open spec fn bytes_readable(s: Seq<u8>, off: int) -> bool {
    &&& 0 <= off
    &&& off + 4 <= s.len()
    &&& off + 4 + page_u32_at(s, off) <= s.len()
}

/// The payload of the length-prefixed byte run at `off`.
pub open spec fn page_bytes_at(s: Seq<u8>, off: int) -> Seq<u8>
    recommends
        bytes_readable(s, off),
{
    s.subrange(off + 4, off + 4 + page_u32_at(s, off))
}

/// A length-prefixed run: the 4-byte big-endian length, then the bytes.
pub open spec fn len_prefixed(d: Seq<u8>) -> Seq<u8>
    recommends
        d.len() <= 0xffff_ffff,
{
    be_of_u32(d.len() as u32) + d
}

/// An all-zero block of `n` bytes.
pub open spec fn zero_block(n: int) -> Seq<u8> {
    Seq::new(n as nat, |i: int| 0u8)
}

/// Builds an all-zero byte vector of length `n`.
pub fn zero_vec(n: usize) -> (r: Vec<u8>)
    ensures
        r@ == zero_block(n as int),
{
    let mut r: Vec<u8> = Vec::new();
    let mut i: usize = 0;
    while i < n
        invariant
            i <= n,
            r@.len() == i,
            forall|j: int| 0 <= j < i ==> r@[j] == 0u8,
        decreases n - i,
    {
        r.push(0u8);
        i = i + 1;
    }
    proof {
        assert(r@ =~= zero_block(n as int));
    }
    r
}

/// In-memory mutable view of one block's bytes with typed accessors.
/// Its length is the block size; every accessor bounds-checks against it and
/// reports an absent or out-of-range result instead of touching bytes past
/// the end.
pub struct Page {
    bytes: Vec<u8>,
}

impl View for Page {
    type V = Seq<u8>;

    closed spec fn view(&self) -> Seq<u8> {
        self.bytes@
    }
}

impl Page {
    #[verifier::type_invariant]
    spec fn type_inv(self) -> bool {
        self.bytes@.len() <= MAX_BLOCK_SIZE
    }

    pub fn builder() -> (r: PageBuilder)
        ensures
            r@ == Seq::<u8>::empty(),
            r.size_setting() == 0,
    {
        PageBuilder::new()
    }

    pub fn block_size(&self) -> (r: usize)
        ensures
            r == self@.len(),
    {
        self.bytes.len()
    }

    pub fn size(&self) -> (r: usize)
        ensures
            r == self@.len(),
    {
        self.bytes.len()
    }

    /// The raw bytes of the page.
    pub fn bytes(&self) -> (r: &Vec<u8>)
        ensures
            r@ == self@,
    {
        &self.bytes
    }

    /// Reads the 4-byte big-endian signed integer at byte offset `offset`.
    pub fn get_int(&self, offset: usize) -> (r: Option<i32>)
        ensures
            r == if int_in_range(self@.len() as int, offset as int) {
                Some(page_i32_at(self@, offset as int))
            } else {
                None::<i32>
            },
    {
        if offset >= self.bytes.len() || self.bytes.len() - offset < 4 {
            return None;
        }
        let b0 = self.bytes[offset];
        let b1 = self.bytes[offset + 1];
        let b2 = self.bytes[offset + 2];
        let b3 = self.bytes[offset + 3];
        let u = u32_from_be(b0, b1, b2, b3);
        proof {
            assert(seq![b0, b1, b2, b3] =~= self@.subrange(offset as int, offset as int + 4));
        }
        Some(u as i32)
    }

    /// Reads the 4-byte length header at `offset` and then that many raw
    /// bytes.
    pub fn get_bytes(&self, offset: usize) -> (r: Option<Vec<u8>>)
        ensures
            match r {
                Some(v) => bytes_readable(self@, offset as int) && v@ == page_bytes_at(
                    self@,
                    offset as int,
                ),
                None => !bytes_readable(self@, offset as int),
            },
    {
        if offset >= self.bytes.len() || self.bytes.len() - offset < 4 {
            return None;
        }
        let b0 = self.bytes[offset];
        let b1 = self.bytes[offset + 1];
        let b2 = self.bytes[offset + 2];
        let b3 = self.bytes[offset + 3];
        let n = u32_from_be(b0, b1, b2, b3);
        proof {
            assert(seq![b0, b1, b2, b3] =~= self@.subrange(offset as int, offset as int + 4));
            use_type_invariant(self);
        }
        let remaining = self.bytes.len() - offset - 4;
        if n > remaining as u32 {
            proof {
                assert(remaining < 0x8000_0000);
            }
            return None;
        }
        let n = n as usize;
        let mut v: Vec<u8> = Vec::new();
        let mut i: usize = 0;
        while i < n
            invariant
                i <= n,
                offset + 4 + n <= self.bytes@.len(),
                self.bytes@.len() <= MAX_BLOCK_SIZE,
                v@.len() == i,
                forall|j: int| 0 <= j < i ==> v@[j] == self.bytes@[offset + 4 + j],
            decreases n - i,
        {
            v.push(self.bytes[offset + 4 + i]);
            i = i + 1;
        }
        proof {
            assert(v@ =~= page_bytes_at(self@, offset as int));
        }
        Some(v)
    }

    /// Reads the length-prefixed byte run at `offset` and decodes it as a
    /// UTF-8 string; absent when out of range or not valid UTF-8.
    pub fn get_string(&self, offset: usize) -> (r: Option<String>)
        ensures
            match r {
                Some(s) => bytes_readable(self@, offset as int) && valid_utf8(
                    page_bytes_at(self@, offset as int),
                ) && s@ == decode_utf8(page_bytes_at(self@, offset as int)),
                None => !bytes_readable(self@, offset as int) || !valid_utf8(
                    page_bytes_at(self@, offset as int),
                ),
            },
    {
        match self.get_bytes(offset) {
            None => None,
            Some(v) => string_from_utf8(v),
        }
    }

    /// Writes a 4-byte big-endian signed integer at `offset`; `None` writes
    /// nothing.
    pub fn set_int(&mut self, offset: usize, val: Option<i32>) -> (r: Result<(), DbError>)
        ensures
            match val {
                None => r == Ok::<(), DbError>(()) && final(self)@ == old(self)@,
                Some(v) => if int_in_range(old(self)@.len() as int, offset as int) {
                    r == Ok::<(), DbError>(()) && final(self)@ == splice(
                        old(self)@,
                        offset as int,
                        be_of_i32(v),
                    )
                } else {
                    r == Err::<(), DbError>(DbError::OutOfRange) && final(self)@ == old(self)@
                },
            },
    {
        match val {
            None => Ok(()),
            Some(v) => {
                proof {
                    use_type_invariant(&*self);
                }
                if offset >= self.bytes.len() || self.bytes.len() - offset < 4 {
                    return Err(DbError::OutOfRange);
                }
                let u = v as u32;
                self.bytes[offset] = ((u >> 24u32) & 0xff) as u8;
                self.bytes[offset + 1] = ((u >> 16u32) & 0xff) as u8;
                self.bytes[offset + 2] = ((u >> 8u32) & 0xff) as u8;
                self.bytes[offset + 3] = (u & 0xff) as u8;
                proof {
                    assert(((u >> 24u32) & 0xff) < 256 && ((u >> 16u32) & 0xff) < 256 && ((u
                        >> 8u32) & 0xff) < 256 && (u & 0xff) < 256) by (bit_vector);
                    assert(self@ =~= splice(old(self)@, offset as int, be_of_i32(v)));
                }
                Ok(())
            },
        }
    }

    /// Writes the 4-byte length header and then the raw bytes at `offset`;
    /// `None` writes nothing.
    pub fn set_bytes(&mut self, offset: usize, bytes: Option<&[u8]>) -> (r: Result<(), DbError>)
        ensures
            match bytes {
                None => r == Ok::<(), DbError>(()) && final(self)@ == old(self)@,
                Some(d) => if offset + 4 + d@.len() <= old(self)@.len() {
                    r == Ok::<(), DbError>(()) && final(self)@ == splice(
                        old(self)@,
                        offset as int,
                        len_prefixed(d@),
                    )
                } else {
                    r == Err::<(), DbError>(DbError::OutOfRange) && final(self)@ == old(self)@
                },
            },
    {
        match bytes {
            None => Ok(()),
            Some(d) => {
                proof {
                    use_type_invariant(&*self);
                }
                if offset >= self.bytes.len() || self.bytes.len() - offset < 4
                    || self.bytes.len() - offset - 4 < d.len() {
                    return Err(DbError::OutOfRange);
                }
                let n = d.len() as u32;
                self.bytes[offset] = ((n >> 24u32) & 0xff) as u8;
                self.bytes[offset + 1] = ((n >> 16u32) & 0xff) as u8;
                self.bytes[offset + 2] = ((n >> 8u32) & 0xff) as u8;
                self.bytes[offset + 3] = (n & 0xff) as u8;
                proof {
                    assert(((n >> 24u32) & 0xff) < 256 && ((n >> 16u32) & 0xff) < 256 && ((n
                        >> 8u32) & 0xff) < 256 && (n & 0xff) < 256) by (bit_vector);
                }
                let ghost mid = self.bytes@;
                let mut i: usize = 0;
                while i < d.len()
                    invariant
                        i <= d@.len(),
                        offset + 4 + d@.len() <= self.bytes@.len(),
                        self.bytes@.len() <= MAX_BLOCK_SIZE,
                        self.bytes@.len() == mid.len(),
                        forall|j: int| 0 <= j < offset + 4 ==> self.bytes@[j] == mid[j],
                        forall|j: int|
                            offset + 4 <= j < offset + 4 + i ==> self.bytes@[j] == d@[j - offset
                                - 4],
                        forall|j: int|
                            offset + 4 + i <= j < self.bytes@.len() ==> self.bytes@[j] == mid[j],
                    decreases d@.len() - i,
                {
                    self.bytes[offset + 4 + i] = d[i];
                    i = i + 1;
                }
                proof {
                    let s0 = old(self)@;
                    let fin = self@;
                    let target = splice(s0, offset as int, len_prefixed(d@));
                    assert(n == d@.len());
                    assert(mid[offset as int] == be_of_u32(n)[0]);
                    assert(mid[offset + 1] == be_of_u32(n)[1]);
                    assert(mid[offset + 2] == be_of_u32(n)[2]);
                    assert(mid[offset + 3] == be_of_u32(n)[3]);
                    assert forall|j: int| 0 <= j < fin.len() implies fin[j] == target[j] by {
                        if j < offset {
                            assert(fin[j] == mid[j]);
                            assert(mid[j] == s0[j]);
                        } else if j < offset + 4 {
                            assert(fin[j] == mid[j]);
                            assert(target[j] == be_of_u32(n)[j - offset]);
                        } else if j < offset + 4 + d@.len() {
                            assert(fin[j] == d@[j - offset - 4]);
                            assert(target[j] == d@[j - offset - 4]);
                        } else {
                            assert(fin[j] == mid[j]);
                            assert(mid[j] == s0[j]);
                        }
                    }
                    assert(fin =~= target);
                }
                Ok(())
            },
        }
    }

    /// Writes the string's UTF-8 bytes, length-prefixed, at `offset`; `None`
    /// writes nothing.
    pub fn set_string(&mut self, offset: usize, val: Option<String>) -> (r: Result<(), DbError>)
        ensures
            match val {
                None => r == Ok::<(), DbError>(()) && final(self)@ == old(self)@,
                Some(s) => if offset + 4 + encode_utf8(s@).len() <= old(self)@.len() {
                    r == Ok::<(), DbError>(()) && final(self)@ == splice(
                        old(self)@,
                        offset as int,
                        len_prefixed(encode_utf8(s@)),
                    )
                } else {
                    r == Err::<(), DbError>(DbError::OutOfRange) && final(self)@ == old(self)@
                },
            },
    {
        match val {
            None => Ok(()),
            Some(s) => {
                let d = s.as_str().as_bytes();
                self.set_bytes(offset, Some(d))
            },
        }
    }

    /// Resets every byte of the page to zero.
    pub fn flush(&mut self)
        ensures
            final(self)@ == zero_block(old(self)@.len() as int),
    {
        let n = self.bytes.len();
        proof {
            use_type_invariant(&*self);
        }
        self.bytes = zero_vec(n);
    }
}

/// Relies on `String::from_utf8`: returns the string consisting of exactly
/// the given bytes when they are valid UTF-8, and reports an error otherwise.
#[verifier::external_body]
fn string_from_utf8(bytes: Vec<u8>) -> (r: Option<String>)
    ensures
        match r {
            Some(s) => valid_utf8(bytes@) && encode_utf8(s@) == bytes@ && s@ == decode_utf8(
                bytes@,
            ),
            None => !valid_utf8(bytes@),
        },
{
    match String::from_utf8(bytes) {
        Ok(s) => Some(s),
        Err(_) => None,
    }
}

/// Step-by-step construction of a `Page`.
pub struct PageBuilder {
    block_size: usize,
    bytes: Vec<u8>,
}

impl View for PageBuilder {
    type V = Seq<u8>;

    closed spec fn view(&self) -> Seq<u8> {
        self.bytes@
    }
}

impl PageBuilder {
    #[verifier::type_invariant]
    spec fn type_inv(self) -> bool {
        self.bytes@.len() <= MAX_BLOCK_SIZE && self.block_size <= MAX_BLOCK_SIZE
    }

    /// The block size set so far.
    pub closed spec fn size_setting(&self) -> int {
        self.block_size as int
    }

    pub fn new() -> (r: PageBuilder)
        ensures
            r@ == Seq::<u8>::empty(),
            r.size_setting() == 0,
    {
        PageBuilder { block_size: 0, bytes: Vec::new() }
    }

    /// Sets the block size for a later `with_buffer`.
    pub fn block_size(self, block_size: usize) -> (r: Self)
        requires
            block_size <= MAX_BLOCK_SIZE,
        ensures
            r@ == self@,
            r.size_setting() == block_size,
    {
        proof {
            use_type_invariant(&self);
        }
        PageBuilder { block_size, bytes: self.bytes }
    }

    /// Allocates a zero-filled buffer of the configured block size.
    pub fn with_buffer(self) -> (r: Self)
        ensures
            r@ == zero_block(self.size_setting()),
            r.size_setting() == self.size_setting(),
    {
        proof {
            use_type_invariant(&self);
        }
        let bytes = zero_vec(self.block_size);
        PageBuilder { block_size: self.block_size, bytes }
    }

    /// Adopts the given buffer; the block size becomes its length.
    pub fn with_log_buffer(self, buffer: Vec<u8>) -> (r: Self)
        requires
            buffer@.len() <= MAX_BLOCK_SIZE,
        ensures
            r@ == buffer@,
            r.size_setting() == buffer@.len(),
    {
        let block_size = buffer.len();
        PageBuilder { block_size, bytes: buffer }
    }

    pub fn build(self) -> (r: Page)
        ensures
            r@ == self@,
    {
        proof {
            use_type_invariant(&self);
        }
        Page { bytes: self.bytes }
    }
}

/// One named file of the store: a sequence of fixed-size blocks.
struct StoreFile {
    name: String,
    blocks: Vec<Vec<u8>>,
}

/// The position of the file called `name`, or -1 when there is none.
spec fn find_file(files: Seq<StoreFile>, name: Seq<char>) -> int
    decreases files.len(),
{
    if files.len() == 0 {
        -1
    } else if files[0].name@ == name {
        0
    } else {
        let r = find_file(files.drop_first(), name);
        if r == -1 {
            -1
        } else {
            r + 1
        }
    }
}

proof fn lemma_find_file(files: Seq<StoreFile>, name: Seq<char>)
    ensures
        -1 <= find_file(files, name) < files.len(),
        find_file(files, name) == -1 <==> forall|j: int|
            0 <= j < files.len() ==> files[j].name@ != name,
        find_file(files, name) >= 0 ==> find_file(files, name) < files.len() && files[find_file(
            files,
            name,
        )].name@ == name && forall|j: int| 0 <= j < find_file(files, name) ==> files[j].name@
            != name,
    decreases files.len(),
{
    let r = find_file(files, name);
    if files.len() == 0 {
    } else if files[0].name@ == name {
    } else {
        let rest = files.drop_first();
        lemma_find_file(rest, name);
        let rr = find_file(rest, name);
        assert(forall|j: int| 1 <= j < files.len() ==> files[j] == rest[j - 1]);
        if rr == -1 {
            assert(r == -1);
            assert forall|j: int| 0 <= j < files.len() implies files[j].name@ != name by {
                if j > 0 {
                    assert(rest[j - 1].name@ != name);
                }
            }
        } else {
            assert(r == rr + 1);
            assert(files[r] == rest[rr]);
            assert forall|j: int| 0 <= j < r implies files[j].name@ != name by {
                if j > 0 {
                    assert(rest[j - 1].name@ != name);
                }
            }
        }
    }
}

proof fn lemma_find_same_names(a: Seq<StoreFile>, b: Seq<StoreFile>, name: Seq<char>)
    requires
        a.len() == b.len(),
        forall|j: int| 0 <= j < a.len() ==> a[j].name@ == b[j].name@,
    ensures
        find_file(a, name) == find_file(b, name),
    decreases a.len(),
{
    if a.len() > 0 {
        assert(forall|j: int|
            0 <= j < a.drop_first().len() ==> a.drop_first()[j].name@ == #[trigger] a.drop_first()[j].name@
                && a.drop_first()[j] == a[j + 1] && b.drop_first()[j] == b[j + 1]);
        lemma_find_same_names(a.drop_first(), b.drop_first(), name);
    }
}

proof fn lemma_find_push(files: Seq<StoreFile>, f: StoreFile, name: Seq<char>)
    ensures
        name == f.name@ && find_file(files, name) == -1 ==> find_file(files.push(f), name)
            == files.len(),
        name != f.name@ || find_file(files, name) >= 0 ==> find_file(files.push(f), name)
            == find_file(files, name),
    decreases files.len(),
{
    let p = files.push(f);
    assert(p.len() == files.len() + 1);
    lemma_find_file(files, name);
    lemma_find_file(p, name);
    if files.len() == 0 {
        assert(p[0] == f);
        assert(p.drop_first() =~= Seq::<StoreFile>::empty());
        if name == f.name@ {
            assert(find_file(p, name) == 0);
        }
    } else {
        assert(p[0] == files[0]);
        assert(p.drop_first() =~= files.drop_first().push(f));
        lemma_find_push(files.drop_first(), f, name);
        lemma_find_file(files.drop_first(), name);
        if name == f.name@ && find_file(files, name) == -1 {
            assert(files[0].name@ != name);
            assert(find_file(files.drop_first(), name) == -1);
            assert(find_file(files.drop_first().push(f), name) == files.drop_first().len());
            assert(find_file(p.drop_first(), name) == files.len() - 1);
            assert(p[0].name@ != name);
            assert(find_file(p, name) == files.len());
        }
    }
}

/// Copies a byte vector.
fn copy_bytes(src: &Vec<u8>) -> (r: Vec<u8>)
    ensures
        r@ == src@,
{
    let mut r: Vec<u8> = Vec::new();
    let mut i: usize = 0;
    while i < src.len()
        invariant
            i <= src@.len(),
            r@ =~= src@.subrange(0, i as int),
        decreases src@.len() - i,
    {
        r.push(src[i]);
        i = i + 1;
    }
    proof {
        assert(r@ =~= src@);
    }
    r
}

/// Durable storage: named files of fixed-size blocks. This is the state that
/// survives a crash; everything above it (buffers, the in-memory log tail)
/// is lost when the engine stops.
pub struct BlockStore {
    block_size: usize,
    is_new: bool,
    files: Vec<StoreFile>,
    stats: Option<FileManagerStats>,
}

impl BlockStore {
    /// Well-formedness: the block size is in range, file names are distinct,
    /// and every block is exactly one block size long. Constructors
    /// establish it and every method keeps it.
    pub closed spec fn inv(&self) -> bool {
        &&& 1 <= self.block_size <= MAX_BLOCK_SIZE
        &&& forall|i: int, j: int|
            0 <= i < j < self.files@.len() ==> self.files@[i].name@ != self.files@[j].name@
        &&& forall|i: int, k: int|
            0 <= i < self.files@.len() && 0 <= k < self.files@[i].blocks@.len() ==> (
            #[trigger] self.files@[i].blocks@[k])@.len() == self.block_size
    }

    pub closed spec fn spec_block_size(&self) -> usize {
        self.block_size
    }

    /// Does the store hold a file of this name?
    pub closed spec fn has_file(&self, name: Seq<char>) -> bool {
        find_file(self.files@, name) >= 0
    }

    /// The blocks of the named file, oldest first; empty when there is no
    /// such file.
    pub closed spec fn file_blocks(&self, name: Seq<char>) -> Seq<Seq<u8>> {
        if find_file(self.files@, name) >= 0 {
            self.files@[find_file(self.files@, name)].blocks.deep_view()
        } else {
            Seq::empty()
        }
    }

    /// The stats counters, when enabled.
    pub closed spec fn spec_stats(&self) -> Option<FileManagerStats> {
        self.stats
    }

    /// What well-formedness gives every caller: the block size is in range
    /// and every stored block is exactly one block size long.
    pub proof fn lemma_inv_facts(&self)
        requires
            self.inv(),
        ensures
            1 <= self.spec_block_size() <= MAX_BLOCK_SIZE,
            forall|n: Seq<char>, k: int|
                0 <= k < self.file_blocks(n).len() ==> (#[trigger] self.file_blocks(n)[k]).len()
                    == self.spec_block_size(),
    {
        assert forall|n: Seq<char>, k: int|
            0 <= k < self.file_blocks(n).len() implies (#[trigger] self.file_blocks(n)[k]).len()
            == self.spec_block_size() by {
            if find_file(self.files@, n) >= 0 {
                lemma_find_file(self.files@, n);
                let fi = find_file(self.files@, n);
                assert(self.file_blocks(n)[k] =~= self.files@[fi].blocks@[k]@);
            }
        }
    }

    /// A file the store does not hold has no blocks.
    pub proof fn lemma_absent_file_empty(&self, n: Seq<char>)
        requires
            !self.has_file(n),
        ensures
            self.file_blocks(n) == Seq::<Seq<u8>>::empty(),
    {
    }

    pub fn new(block_size: usize) -> (r: BlockStore)
        requires
            1 <= block_size <= MAX_BLOCK_SIZE,
        ensures
            r.block_size() == block_size,
            r.is_new(),
            forall|n: Seq<char>| !r.has_file(n) && r.file_blocks(n) == Seq::<Seq<u8>>::empty(),
            r.spec_stats() is None,
            r.inv(),
    {
        BlockStore { block_size, is_new: true, files: Vec::new(), stats: None }
    }

    #[verifier::when_used_as_spec(spec_block_size)]
    pub fn block_size(&self) -> (r: usize)
        ensures
            r == self.spec_block_size(),
    {
        self.block_size
    }

    pub closed spec fn spec_is_new(&self) -> bool {
        self.is_new
    }

    #[verifier::when_used_as_spec(spec_is_new)]
    pub fn is_new(&self) -> (r: bool)
        ensures
            r == self.spec_is_new(),
    {
        self.is_new
    }

    /// Starts counting blocks read and written.
    pub fn with_stats(&mut self)
        requires
            old(self).inv(),
        ensures
            final(self).inv(),
            final(self).spec_stats() is Some,
            final(self).spec_stats()->Some_0.blocks_read() == 0,
            final(self).spec_stats()->Some_0.blocks_write() == 0,
            final(self).block_size() == old(self).block_size(),
            final(self).is_new() == old(self).is_new(),
            forall|n: Seq<char>|
                final(self).has_file(n) == old(self).has_file(n) && final(self).file_blocks(n)
                    == old(self).file_blocks(n),
    {
        self.stats = Some(FileManagerStats::new());
    }

    /// The stats counters, when enabled.
    pub fn stats(&self) -> (r: Option<FileManagerStats>)
        ensures
            r == self.spec_stats(),
    {
        self.stats
    }

    /// The position of the file of this name, as the spec `find_file` sees
    /// it.
    fn lookup(&self, name: &String) -> (r: Option<usize>)
        ensures
            match r {
                Some(i) => i < self.files@.len() && find_file(self.files@, name@) == i
                    && self.files@[i as int].name@ == name@,
                None => find_file(self.files@, name@) == -1,
            },
    {
        let mut i: usize = 0;
        while i < self.files.len()
            invariant
                i <= self.files@.len(),
                forall|j: int| 0 <= j < i ==> self.files@[j].name@ != name@,
            decreases self.files@.len() - i,
        {
            if self.files[i].name == *name {
                proof {
                    lemma_find_file(self.files@, name@);
                    let r = find_file(self.files@, name@);
                    assert(self.files@[i as int].name@ == name@);
                    if r == -1 {
                        assert(self.files@[i as int].name@ != name@);
                    } else if r < i {
                        assert(self.files@[r].name@ == name@);
                    } else if r > i {
                        assert(self.files@[i as int].name@ != name@);
                    }
                }
                return Some(i);
            }
            i = i + 1;
        }
        proof {
            lemma_find_file(self.files@, name@);
        }
        None
    }

    fn bump_read(&mut self)
        ensures
            final(self).files@ == old(self).files@,
            final(self).block_size == old(self).block_size,
            final(self).is_new == old(self).is_new,
    {
        match &self.stats {
            None => (),
            Some(st) => {
                let n = st.blocks_read();
                let mut st2 = *st;
                if n < u64::MAX {
                    st2.set_blocks_read(n + 1);
                }
                self.stats = Some(st2);
            },
        }
    }

    fn bump_write(&mut self)
        ensures
            final(self).files@ == old(self).files@,
            final(self).block_size == old(self).block_size,
            final(self).is_new == old(self).is_new,
    {
        match &self.stats {
            None => (),
            Some(st) => {
                let n = st.blocks_write();
                let mut st2 = *st;
                if n < u64::MAX {
                    st2.set_blocks_write(n + 1);
                }
                self.stats = Some(st2);
            },
        }
    }

    /// Copies the named block into `page`. Fails with `BlockNotFound`, and
    /// leaves the page as it was, when the file is absent or the block lies
    /// beyond its end.
    pub fn read(&mut self, block_id: &BlockId, page: &mut Page) -> (r: Result<(), DbError>)
        requires
            old(self).inv(),
        ensures
            final(self).inv(),
            final(self).block_size() == old(self).block_size(),
            final(self).is_new() == old(self).is_new(),
            forall|n: Seq<char>|
                final(self).has_file(n) == old(self).has_file(n) && final(self).file_blocks(n)
                    == old(self).file_blocks(n),
            if old(self).has_file(block_id@.file_name) && block_id@.block_num < old(self).file_blocks(block_id@.file_name).len() {
                r == Ok::<(), DbError>(()) && final(page)@ == old(self).file_blocks(
                    block_id@.file_name,
                )[block_id@.block_num as int] && final(page)@.len() == old(self).block_size()
            } else {
                r == Err::<(), DbError>(DbError::BlockNotFound) && final(page)@ == old(page)@
            },
    {
        let name = block_id.file_name();
        let num = block_id.block_num();
        match self.lookup(&name) {
            None => Err(DbError::BlockNotFound),
            Some(i) => {
                if num >= self.files[i].blocks.len() {
                    return Err(DbError::BlockNotFound);
                }
                let bytes = copy_bytes(&self.files[i].blocks[num]);
                proof {
                    assert(self.files@[i as int].blocks@[num as int]@.len() == self.block_size);
                    assert(bytes@ =~= self.files@[i as int].blocks.deep_view()[num as int]);
                }
                *page = Page { bytes };
                self.bump_read();
                Ok(())
            },
        }
    }

    /// Writes the page's bytes as the named block. Fails with
    /// `BlockNotFound` when the file is absent or the block lies beyond its
    /// end.
    pub fn write(&mut self, block_id: &BlockId, page: &Page) -> (r: Result<(), DbError>)
        requires
            old(self).inv(),
            page@.len() == old(self).block_size(),
        ensures
            final(self).inv(),
            final(self).block_size() == old(self).block_size(),
            final(self).is_new() == old(self).is_new(),
            forall|n: Seq<char>| final(self).has_file(n) == old(self).has_file(n),
            if old(self).has_file(block_id@.file_name) && block_id@.block_num < old(self).file_blocks(block_id@.file_name).len() {
                r == Ok::<(), DbError>(()) && final(self).file_blocks(block_id@.file_name) == old(self).file_blocks(block_id@.file_name).update(block_id@.block_num as int, page@)
                    && forall|n: Seq<char>|
                    n != block_id@.file_name ==> final(self).file_blocks(n) == old(self).file_blocks(n)
            } else {
                r == Err::<(), DbError>(DbError::BlockNotFound) && forall|n: Seq<char>|
                    final(self).file_blocks(n) == old(self).file_blocks(n)
            },
    {
        let name = block_id.file_name();
        let num = block_id.block_num();
        match self.lookup(&name) {
            None => Err(DbError::BlockNotFound),
            Some(i) => {
                if num >= self.files[i].blocks.len() {
                    return Err(DbError::BlockNotFound);
                }
                let bytes = copy_bytes(page.bytes());
                let ghost files0 = self.files@;
                proof {
                    lemma_find_file(files0, name@);
                }
                self.files[i].blocks[num] = bytes;
                proof {
                    assert(forall|j: int|
                        0 <= j < files0.len() ==> self.files@[j].name@ == files0[j].name@);
                    assert forall|n: Seq<char>| #[trigger] find_file(self.files@, n) == find_file(
                        files0,
                        n,
                    ) by {
                        lemma_find_same_names(files0, self.files@, n);
                    }
                    assert forall|n: Seq<char>|
                        n != name@ && #[trigger] find_file(files0, n) >= 0 implies self.files@[find_file(
                        files0,
                        n,
                    )].blocks == files0[find_file(files0, n)].blocks by {
                        lemma_find_file(files0, n);
                        assert(files0[find_file(files0, n)].name@ == n);
                        assert(find_file(files0, n) != i);
                    }
                    assert(bytes.deep_view() =~= page@);
                    assert(self.files@[i as int].blocks.deep_view() =~~= files0[i as int].blocks.deep_view().update(
                        num as int,
                        page@,
                    ));
                }
                self.bump_write();
                Ok(())
            },
        }
    }

    /// Extends the named file, creating it first when absent, by one
    /// zero-filled block, and returns that block's id.
    pub fn append(&mut self, file_name: &str) -> (r: BlockId)
        requires
            old(self).inv(),
        ensures
            final(self).inv(),
            final(self).block_size() == old(self).block_size(),
            final(self).is_new() == old(self).is_new(),
            r@.file_name == file_name@,
            r@.block_num == old(self).file_blocks(file_name@).len(),
            final(self).has_file(file_name@),
            final(self).file_blocks(file_name@) == old(self).file_blocks(file_name@).push(
                zero_block(old(self).block_size() as int),
            ),
            forall|n: Seq<char>|
                n != file_name@ ==> final(self).has_file(n) == old(self).has_file(n) && final(self).file_blocks(n) == old(self).file_blocks(n),
    {
        let name = file_name.to_owned();
        let zero = zero_vec(self.block_size);
        let i: usize = match self.lookup(&name) {
            Some(i) => i,
            None => {
                let ghost files0 = self.files@;
                let n_files = self.files.len();
                self.files.push(StoreFile { name: name.clone(), blocks: Vec::new() });
                proof {
                    assert forall|n: Seq<char>| true implies #[trigger] find_file(self.files@, n)
                        == if n == name@ && find_file(files0, n) == -1 {
                        files0.len() as int
                    } else {
                        find_file(files0, n)
                    } by {
                        assert(self.files@ =~= files0.push(self.files@[files0.len() as int]));
                        lemma_find_push(files0, self.files@[files0.len() as int], n);
                    }
                    lemma_find_file(files0, name@);
                    assert(self.files@[n_files as int].name@ == name@);
                }
                n_files
            },
        };
        let num = self.files[i].blocks.len();
        let ghost files1 = self.files@;
        let ghost zseq = zero@;
        self.files[i].blocks.push(zero);
        let r = BlockId::new(file_name, num);
        proof {
            assert forall|j: int|
                0 <= j < files1.len() implies self.files@[j].name@ == files1[j].name@ by {
                if j != i {
                    assert(self.files@[j] == files1[j]);
                }
            }
            assert forall|n: Seq<char>| true implies #[trigger] find_file(self.files@, n)
                == find_file(files1, n) by {
                lemma_find_same_names(files1, self.files@, n);
            }
            lemma_find_file(files1, name@);
            assert(self.files@[i as int].blocks@ == files1[i as int].blocks@.push(
                self.files@[i as int].blocks@.last(),
            ));
            assert(self.files@[i as int].blocks.deep_view() =~~= files1[i as int].blocks.deep_view().push(
                zero_block(self.block_size as int),
            ));
            assert(files1[i as int].name@ == name@);
            assert forall|n: Seq<char>|
                n != file_name@ implies final(self).file_blocks(n) == old(self).file_blocks(n)
                && final(self).has_file(n) == old(self).has_file(n) by {
                lemma_find_file(files1, n);
                let fi = find_file(files1, n);
                if fi >= 0 {
                    assert(files1[fi].name@ == n);
                    if fi != i {
                        assert(self.files@[fi] == files1[fi]);
                    }
                }
            }
        }
        r
    }

    /// The number of blocks of the named file, or absent when there is no
    /// such file.
    pub fn length(&self, file_name: &str) -> (r: Option<usize>)
        ensures
            match r {
                Some(n) => self.has_file(file_name@) && n == self.file_blocks(file_name@).len(),
                None => !self.has_file(file_name@),
            },
    {
        let name = file_name.to_owned();
        match self.lookup(&name) {
            None => None,
            Some(i) => Some(self.files[i].blocks.len()),
        }
    }

    /// A copy of the named block, or absent when it does not exist.
    pub fn get_block(&self, file_name: &str, block_num: usize) -> (r: Option<Vec<u8>>)
        ensures
            match r {
                Some(v) => self.has_file(file_name@) && block_num < self.file_blocks(
                    file_name@,
                ).len() && v@ == self.file_blocks(file_name@)[block_num as int],
                None => !self.has_file(file_name@) || block_num >= self.file_blocks(
                    file_name@,
                ).len(),
            },
    {
        let name = file_name.to_owned();
        match self.lookup(&name) {
            None => None,
            Some(i) => {
                if block_num >= self.files[i].blocks.len() {
                    return None;
                }
                let v = copy_bytes(&self.files[i].blocks[block_num]);
                Some(v)
            },
        }
    }

    /// Installs a file read back from outside storage. The caller hands the
    /// blocks as plain byte vectors, each exactly one block long; a file of
    /// the same name must not already be present.
    #[verifier::loop_isolation(false)]
    pub fn load_file(&mut self, file_name: &str, blocks: Vec<Vec<u8>>) -> (r: Result<(), DbError>)
        requires
            old(self).inv(),
        ensures
            final(self).inv(),
            match r {
                Ok(()) => !old(self).has_file(file_name@) && (forall|k: int|
                    0 <= k < blocks@.len() ==> (#[trigger] blocks@[k])@.len() == old(self).block_size()) && final(self).has_file(file_name@) && final(self).file_blocks(
                    file_name@,
                ) == blocks.deep_view() && !final(self).is_new(),
                Err(e) => e == DbError::OutOfRange && final(self).file_blocks(file_name@) == old(self).file_blocks(file_name@) && final(self).has_file(file_name@) == old(self).has_file(file_name@) && final(self).is_new() == old(self).is_new(),
            },
            final(self).block_size() == old(self).block_size(),
            forall|n: Seq<char>|
                n != file_name@ ==> final(self).has_file(n) == old(self).has_file(n) && final(self).file_blocks(n) == old(self).file_blocks(n),
    {
        let name = file_name.to_owned();
        if self.lookup(&name).is_some() {
            return Err(DbError::OutOfRange);
        }
        let mut i: usize = 0;
        while i < blocks.len()
            invariant
                i <= blocks@.len(),
                forall|k: int| 0 <= k < i ==> (#[trigger] blocks@[k])@.len() == self.block_size,
            decreases blocks@.len() - i,
        {
            if blocks[i].len() != self.block_size {
                return Err(DbError::OutOfRange);
            }
            i = i + 1;
        }
        let ghost files0 = self.files@;
        self.files.push(StoreFile { name, blocks });
        self.is_new = false;
        proof {
            assert forall|n: Seq<char>| true implies #[trigger] find_file(self.files@, n)
                == if n == file_name@ && find_file(files0, n) == -1 {
                files0.len() as int
            } else {
                find_file(files0, n)
            } by {
                assert(self.files@ =~= files0.push(self.files@[files0.len() as int]));
                lemma_find_push(files0, self.files@[files0.len() as int], n);
            }
            lemma_find_file(files0, file_name@);
            assert(final(self).file_blocks(file_name@) =~= blocks.deep_view());
            assert forall|n: Seq<char>|
                n != file_name@ implies final(self).has_file(n) == old(self).has_file(n)
                && final(self).file_blocks(n) == old(self).file_blocks(n) by {
                if find_file(files0, n) >= 0 {
                    lemma_find_file(files0, n);
                    assert(self.files@[find_file(files0, n)] == files0[find_file(files0, n)]);
                }
            }
        }
        Ok(())
    }
}

} // verus!
