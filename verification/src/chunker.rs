//! Splitting a byte source into consecutive blocks of one fixed size.

use vstd::prelude::*;

verus! {

/// Block `i` of `data` for blocks of `size` bytes: the bytes from `i * size`
/// up to, but without, `(i + 1) * size`.
pub open spec fn block(data: Seq<u8>, size: nat, i: int) -> Seq<u8> {
    data.subrange(i * size, (i + 1) * size)
}

/// The full blocks of `data` in order. What is left after the last full block
/// belongs to none.
pub open spec fn blocks(data: Seq<u8>, size: nat) -> Seq<Seq<u8>>
    recommends
        size > 0,
{
    Seq::new(data.len() / size, |i: int| block(data, size, i))
}

/// The contents of each vector of `chunks`, in order.
pub open spec fn contents(chunks: Seq<Vec<u8>>) -> Seq<Seq<u8>> {
    chunks.map_values(|chunk: Vec<u8>| chunk@)
}

/// Hands out the blocks of a byte source one after another.
pub struct Chunker<'a> {
    chunk_size: u16,
    source: &'a [u8],
}

impl<'a> Chunker<'a> {
    /// The size of the chunks.
    pub closed spec fn chunk_size(&self) -> u16 {
        self.chunk_size
    }

    /// The bytes of the source that have not been read yet.
    pub closed spec fn unread(&self) -> Seq<u8> {
        self.source@
    }

    /// A chunker that stands at the start of `source`.
    pub fn new(chunk_size: u16, source: &'a [u8]) -> (chunker: Self)
        ensures
            chunker.chunk_size() == chunk_size,
            chunker.unread() == source@,
    {
        Chunker { chunk_size, source }
    }

    /// Reads the next chunk. Where fewer bytes than a chunk are left, they are
    /// read and dropped, and there is no chunk.
    pub fn next(&mut self) -> (chunk: Option<Vec<u8>>)
        ensures
            final(self).chunk_size() == old(self).chunk_size(),
            old(self).unread().len() >= old(self).chunk_size() ==> chunk.is_some()
                && chunk.unwrap()@ == old(self).unread().take(old(self).chunk_size() as int)
                && final(self).unread() == old(self).unread().skip(old(self).chunk_size() as int),
            old(self).unread().len() < old(self).chunk_size() ==> chunk.is_none()
                && final(self).unread() == Seq::<u8>::empty(),
    {
        let size: usize = self.chunk_size as usize;
        let len: usize = self.source.len();
        if len >= size {
            let chunk = vstd::slice::slice_to_vec(vstd::slice::slice_subrange(self.source, 0, size));
            self.source = vstd::slice::slice_subrange(self.source, size, len);
            Some(chunk)
        } else {
            self.source = vstd::slice::slice_subrange(self.source, len, len);
            None
        }
    }

    /// Reads all the chunks that are left, in order.
    pub fn collect(self) -> (chunks: Vec<Vec<u8>>)
        requires
            self.chunk_size() > 0,
        ensures
            contents(chunks@) == blocks(self.unread(), self.chunk_size() as nat),
    {
        let ghost data = self.unread();
        let ghost size = self.chunk_size() as nat;
        let mut chunker = self;
        let mut chunks: Vec<Vec<u8>> = Vec::new();
        proof {
            assert(0 * size == 0) by (nonlinear_arith);
            assert(contents(chunks@) == blocks(data, size).take(0));
        }
        loop
            invariant_except_break
                chunker.unread() == data.skip((chunks@.len() * size) as int),
            invariant
                size > 0,
                chunker.chunk_size() == size,
                chunks@.len() * size <= data.len(),
                contents(chunks@) == blocks(data, size).take(chunks@.len() as int),
            ensures
                contents(chunks@) == blocks(data, size),
            decreases chunker.unread().len(),
        {
            let ghost done = chunks@.len() as int;
            proof {
                lemma_block_count(data.len(), size, done);
            }
            match chunker.next() {
                Some(chunk) => {
                    proof {
                        assert(done * size + size == (done + 1) * size) by (nonlinear_arith);
                        assert(chunk@ == block(data, size, done));
                        assert(data.skip(done * size).skip(size as int) == data.skip(
                            (done + 1) * size,
                        ));
                    }
                    chunks.push(chunk);
                    proof {
                        assert(contents(chunks@) == blocks(data, size).take(done + 1));
                    }
                },
                None => {
                    proof {
                        assert(blocks(data, size).take(done) == blocks(data, size));
                    }
                    break ;
                },
            }
        }
        chunks
    }
}

/// The sequences of `chunks`, one after another.
pub open spec fn joined(chunks: Seq<Seq<u8>>) -> Seq<u8>
    decreases chunks.len(),
{
    if chunks.len() == 0 {
        Seq::empty()
    } else {
        joined(chunks.drop_last()) + chunks.last()
    }
}

/// The first `count` blocks of `data`, one after another, are the first
/// `count * size` bytes of `data`.
pub proof fn lemma_blocks_join(data: Seq<u8>, size: nat, count: int)
    requires
        size > 0,
        0 <= count <= data.len() / size,
    ensures
        count * size <= data.len(),
        joined(blocks(data, size).take(count)) == data.take(count * size),
    decreases count,
{
    vstd::arithmetic::div_mod::lemma_fundamental_div_mod(data.len() as int, size as int);
    vstd::arithmetic::div_mod::lemma_mod_bound(data.len() as int, size as int);
    let full = data.len() as int / size as int;
    assert(count * size <= size * full) by (nonlinear_arith)
        requires
            0 <= count <= full,
            size > 0,
    ;
    if count == 0 {
        assert(0 * size == 0) by (nonlinear_arith);
        assert(data.take(0) == Seq::<u8>::empty());
    } else {
        lemma_blocks_join(data, size, count - 1);
        let first = blocks(data, size).take(count);
        assert(first.drop_last() == blocks(data, size).take(count - 1));
        assert(first.last() == block(data, size, count - 1));
        assert((count - 1) * size + size == count * size) by (nonlinear_arith);
        assert(data.take((count - 1) * size) + block(data, size, count - 1) == data.take(
            count * size,
        ));
    }
}

/// Chunking is exact: a source of `n` bytes has `n / size` full blocks,
/// block `i` holds the bytes from `i * size` on, and together the blocks are
/// the source without its last `n % size` bytes. Nothing is left out where
/// `size` divides `n`.
pub proof fn lemma_blocks_cover(data: Seq<u8>, size: nat)
    requires
        size > 0,
    ensures
        blocks(data, size).len() == data.len() / size,
        forall|i: int|
            0 <= i < data.len() / size ==> #[trigger] blocks(data, size)[i] == data.subrange(
                i * size,
                i * size + size,
            ),
        joined(blocks(data, size)) == data.take(data.len() - data.len() % size),
        data.len() % size == 0 ==> joined(blocks(data, size)) == data,
{
    let full = data.len() as int / size as int;
    lemma_blocks_join(data, size, full);
    vstd::arithmetic::div_mod::lemma_fundamental_div_mod(data.len() as int, size as int);
    assert(full * size == size * full) by (nonlinear_arith);
    assert(blocks(data, size).take(full) == blocks(data, size));
    assert forall|i: int| 0 <= i < data.len() / size implies #[trigger] blocks(data, size)[i]
        == data.subrange(i * size, i * size + size) by {
        assert((i + 1) * size == i * size + size) by (nonlinear_arith);
    }
    if data.len() % size == 0 {
        assert(data.take(data.len() as int) == data);
    }
}

/// With `done` full blocks read, another full block is left exactly where
/// `done` is below the number of full blocks.
pub proof fn lemma_block_count(len: nat, size: nat, done: int)
    requires
        size > 0,
        0 <= done,
        done * size <= len,
    ensures
        done <= len / size,
        len - done * size >= size <==> done < len / size,
{
    vstd::arithmetic::div_mod::lemma_fundamental_div_mod(len as int, size as int);
    vstd::arithmetic::div_mod::lemma_mod_bound(len as int, size as int);
    let q = len as int / size as int;
    let r = len as int % size as int;
    assert(done <= q) by (nonlinear_arith)
        requires
            done * size <= len,
            len == size * q + r,
            r < size,
            size > 0,
    ;
    if done < q {
        assert((done + 1) * size <= q * size) by (nonlinear_arith)
            requires
                done + 1 <= q,
                size > 0,
        ;
        assert((done + 1) * size == done * size + size) by (nonlinear_arith);
        assert(q * size == size * q) by (nonlinear_arith);
    } else {
        assert(done * size == size * q) by (nonlinear_arith)
            requires
                done == q,
        ;
    }
}

} // verus!
