//! Forward, reverse and seeking traversal of a block.
use std::sync::Arc;

use vstd::prelude::*;

use crate::block::{
    entry_end, entry_key, entry_overlap, entry_rest_len, entry_value_start, first_key_of,
    read_u16, Block, SIZEOF_U16,
};
use crate::key::{compare_keys, lemma_lex_lt_asym, lemma_lex_lt_trans, lex_lt};

verus! {

/// Iterates on a block.
pub struct BlockIterator {
    /// The block, shared with its other readers.
    block: Arc<Block>,
    /// The current key; empty when the iterator is invalid.
    key: Vec<u8>,
    /// The current value's range in the block's data.
    value_range: (usize, usize),
    /// Index of the current entry.
    idx: usize,
    /// The first key in the block.
    first_key: Vec<u8>,
    /// Whether `next` moves backwards.
    prev: bool,
}

impl BlockIterator {
    /// The entries of the block being traversed.
    pub closed spec fn entries(&self) -> Seq<(Seq<u8>, Seq<u8>)> {
        (*self.block)@
    }

    /// The iterator stands on an entry.
    pub closed spec fn valid(&self) -> bool {
        self.key@.len() > 0
    }

    /// Index of the entry the iterator stands on, when it is valid.
    pub closed spec fn index(&self) -> int {
        self.idx as int
    }

    /// `next` moves towards the first entry.
    pub closed spec fn reversed(&self) -> bool {
        self.prev
    }

    pub closed spec fn wf(&self) -> bool {
        let b = *self.block;
        let d = b.data@;
        &&& b.well_formed()
        &&& self.first_key@ == first_key_of(d)
        &&& self.value_range.0 <= self.value_range.1 <= d.len()
        &&& self.key@.len() > 0 ==> {
            &&& self.idx < b.offsets@.len()
            &&& self.key@ == b@[self.idx as int].0
            &&& self.value_range.0 == entry_value_start(d, b.offsets@[self.idx as int] as int)
            &&& self.value_range.1 == entry_end(d, b.offsets@[self.idx as int] as int)
        }
    }

    fn new(block: Arc<Block>, prev: bool) -> (r: Self)
        requires
            block.well_formed(),
        ensures
            r.wf(),
            !r.valid(),
            r.entries() == block@,
            r.reversed() == prev,
    {
        let first_key = block.get_first_key();
        BlockIterator { block, key: Vec::new(), value_range: (0, 0), idx: 0, first_key, prev }
    }

    /// Creates a block iterator and seeks to the first entry.
    pub fn create_and_seek_to_first(block: Arc<Block>) -> (r: Self)
        requires
            block.well_formed(),
        ensures
            r.wf(),
            r.entries() == block@,
            r.valid(),
            r.index() == 0,
            !r.reversed(),
    {
        let mut iter = Self::new(block, false);
        iter.seek_to_first();
        iter
    }

    /// Creates a reverse block iterator and seeks to the last entry.
    pub fn create_and_seek_to_last(block: Arc<Block>) -> (r: Self)
        requires
            block.well_formed(),
        ensures
            r.wf(),
            r.entries() == block@,
            r.valid(),
            r.index() == block@.len() - 1,
            r.reversed(),
    {
        let mut iter = Self::new(block, true);
        iter.seek_to_last();
        iter
    }

    /// Creates a block iterator and seeks to the first key that is `>= key`.
    pub fn create_and_seek_to_key(block: Arc<Block>, key: &[u8]) -> (r: Self)
        requires
            block.well_formed(),
        ensures
            r.wf(),
            r.entries() == block@,
            !r.reversed(),
            r.valid() ==> 0 <= r.index() < block@.len() && !lex_lt(block@[r.index()].0, key@)
                && forall|j: int| 0 <= j < r.index() ==> lex_lt(#[trigger] block@[j].0, key@),
            !r.valid() ==> forall|j: int| 0 <= j < block@.len() ==> lex_lt(#[trigger] block@[j].0, key@),
    {
        let mut iter = Self::new(block, false);
        iter.seek_to_key(key);
        iter
    }

    /// Returns the key of the current entry.
    pub fn key(&self) -> (r: &[u8])
        requires
            self.wf(),
            self.valid(),
        ensures
            r@ == self.entries()[self.index()].0,
    {
        self.key.as_slice()
    }

    /// Returns the value of the current entry, a view into the block's data.
    pub fn value(&self) -> (r: &[u8])
        requires
            self.wf(),
            self.valid(),
        ensures
            r@ == self.entries()[self.index()].1,
    {
        vstd::slice::slice_subrange(
            self.block.data.as_slice(),
            self.value_range.0,
            self.value_range.1,
        )
    }

    /// Returns true if the iterator stands on an entry.
    pub fn is_valid(&self) -> (r: bool)
        requires
            self.wf(),
        ensures
            r == self.valid(),
            r ==> 0 <= self.index() < self.entries().len(),
    {
        self.key.len() > 0
    }

    /// Seeks to the first key in the block.
    pub fn seek_to_first(&mut self)
        requires
            old(self).wf(),
        ensures
            final(self).wf(),
            final(self).entries() == old(self).entries(),
            final(self).reversed() == old(self).reversed(),
            final(self).valid(),
            final(self).index() == 0,
    {
        self.seek_to(0);
    }

    /// Seeks to the last key in the block.
    pub fn seek_to_last(&mut self)
        requires
            old(self).wf(),
        ensures
            final(self).wf(),
            final(self).entries() == old(self).entries(),
            final(self).reversed() == old(self).reversed(),
            final(self).valid(),
            final(self).index() == old(self).entries().len() - 1,
    {
        let offset_len = self.block.offsets.len();
        self.seek_to(offset_len - 1);
    }

    /// Moves to the next entry: the one after in forward mode, the one
    /// before in reverse mode. Past either end the iterator becomes invalid,
    /// and an invalid iterator stays so.
    pub fn next(&mut self)
        requires
            old(self).wf(),
        ensures
            final(self).wf(),
            final(self).entries() == old(self).entries(),
            final(self).reversed() == old(self).reversed(),
            !old(self).valid() ==> !final(self).valid(),
            old(self).valid() && !old(self).reversed() ==> {
                &&& final(self).valid() == (old(self).index() + 1 < old(self).entries().len())
                &&& final(self).valid() ==> final(self).index() == old(self).index() + 1
            },
            old(self).valid() && old(self).reversed() ==> {
                &&& final(self).valid() == (old(self).index() > 0)
                &&& final(self).valid() ==> final(self).index() == old(self).index() - 1
            },
    {
        if self.key.len() == 0 {
            return;
        }
        if self.prev {
            if self.idx == 0 {
                self.invalidate();
                return;
            }
            let idx = self.idx - 1;
            self.seek_to(idx);
            return;
        }
        let idx = self.idx + 1;
        self.seek_to(idx);
    }

    fn invalidate(&mut self)
        requires
            old(self).wf(),
        ensures
            final(self).wf(),
            final(self).entries() == old(self).entries(),
            final(self).reversed() == old(self).reversed(),
            !final(self).valid(),
    {
        self.key.clear();
        self.value_range = (0, 0);
    }

    /// Seeks to the `idx`-th entry; past the end the iterator becomes invalid.
    fn seek_to(&mut self, idx: usize)
        requires
            old(self).wf(),
        ensures
            final(self).wf(),
            final(self).entries() == old(self).entries(),
            final(self).reversed() == old(self).reversed(),
            final(self).valid() == (idx < old(self).entries().len()),
            final(self).valid() ==> final(self).index() == idx,
    {
        if idx >= self.block.offsets.len() {
            self.invalidate();
            return;
        }
        let offset = self.block.offsets[idx] as usize;
        self.seek_to_offset(offset, Ghost(idx as int));
        self.idx = idx;
    }

    /// Reads the entry at byte `offset`, which is that of entry `i`.
    fn seek_to_offset(&mut self, offset: usize, i: Ghost<int>)
        requires
            old(self).wf(),
            0 <= i@ < old(self).block.offsets@.len(),
            offset == old(self).block.offsets@[i@],
        ensures
            final(self).block == old(self).block,
            final(self).first_key == old(self).first_key,
            final(self).prev == old(self).prev,
            final(self).key@ == old(self).entries()[i@].0,
            final(self).value_range.0 == entry_value_start(
                old(self).block.data@,
                offset as int,
            ),
            final(self).value_range.1 == entry_end(old(self).block.data@, offset as int),
            final(self).value_range.0 <= final(self).value_range.1 <= old(
                self,
            ).block.data@.len(),
    {
        let ghost d = self.block.data@;
        let ghost first = first_key_of(d);
        assert(crate::block::entry_ok(d, self.block.offsets@[i@] as int, first.len() as int));
        let data = self.block.data.as_slice();
        let overlap_len = read_u16(data, offset);
        let key_len = read_u16(data, offset + SIZEOF_U16);
        let mut key: Vec<u8> = Vec::new();
        let mut j: usize = 0;
        while j < overlap_len
            invariant
                j <= overlap_len,
                overlap_len <= self.first_key@.len(),
                key@ == self.first_key@.subrange(0, j as int),
            decreases overlap_len - j,
        {
            key.push(self.first_key[j]);
            j = j + 1;
            assert(key@ =~= self.first_key@.subrange(0, j as int));
        }
        let start = offset + 2 * SIZEOF_U16;
        assert(start + key_len <= self.block.data@.len());
        let end = start + key_len;
        let mut k: usize = start;
        while k < end
            invariant
                start <= k <= end,
                end == start + key_len,
                end <= d.len(),
                overlap_len <= self.first_key@.len(),
                data@ == d,
                key@ == self.first_key@.subrange(0, overlap_len as int) + d.subrange(
                    start as int,
                    k as int,
                ),
            decreases end - k,
        {
            key.push(data[k]);
            k = k + 1;
            assert(key@ =~= self.first_key@.subrange(0, overlap_len as int) + d.subrange(
                start as int,
                k as int,
            ));
        }
        assert(key@ == entry_key(d, offset as int, first));
        let value_len = read_u16(data, start + key_len);
        let begin = start + key_len + SIZEOF_U16;
        self.key = key;
        self.value_range = (begin, begin + value_len);
    }

    /// Seeks to the first key that is `>= key`, by binary search over the
    /// offsets; invalid when every key is smaller.
    pub fn seek_to_key(&mut self, key: &[u8])
        requires
            old(self).wf(),
        ensures
            final(self).wf(),
            final(self).entries() == old(self).entries(),
            final(self).reversed() == old(self).reversed(),
            final(self).valid() ==> 0 <= final(self).index() < final(self).entries().len()
                && !lex_lt(final(self).entries()[final(self).index()].0, key@) && forall|j: int|
                0 <= j < final(self).index() ==> lex_lt(
                #[trigger] final(self).entries()[j].0,
                key@,
            ),
            !final(self).valid() ==> forall|j: int|
                0 <= j < final(self).entries().len() ==> lex_lt(
                    #[trigger] final(self).entries()[j].0,
                    key@,
                ),
    {
        let ghost es = self.entries();
        let mut low: usize = 0;
        let mut high: usize = self.block.offsets.len();
        while low < high
            invariant
                self.wf(),
                self.entries() == es,
                es == old(self).entries(),
                self.reversed() == old(self).reversed(),
                0 <= low <= high <= es.len(),
                forall|j: int| 0 <= j < low ==> lex_lt(#[trigger] es[j].0, key@),
                forall|j: int| high <= j < es.len() ==> lex_lt(key@, #[trigger] es[j].0),
            decreases high - low,
        {
            let mid = low + (high - low) / 2;
            self.seek_to(mid);
            let c = compare_keys(self.key.as_slice(), key);
            if c < 0 {
                proof {
                    assert forall|j: int| 0 <= j <= mid implies lex_lt(#[trigger] es[j].0, key@) by {
                        if j < mid {
                            lemma_lex_lt_trans(es[j].0, es[mid as int].0, key@);
                        }
                    }
                }
                low = mid + 1;
            } else if c == 0 {
                proof {
                    assert forall|j: int| 0 <= j < mid implies lex_lt(#[trigger] es[j].0, key@) by {
                        assert(lex_lt(es[j].0, es[mid as int].0));
                    }
                    lemma_lex_lt_asym(key@, key@);
                }
                return;
            } else {
                proof {
                    assert forall|j: int| mid <= j < es.len() implies lex_lt(key@, #[trigger] es[j].0) by {
                        if j > mid {
                            lemma_lex_lt_trans(key@, es[mid as int].0, es[j].0);
                        }
                    }
                }
                high = mid;
            }
        }
        self.seek_to(low);
        proof {
            if low < es.len() {
                lemma_lex_lt_asym(key@, es[low as int].0);
            }
        }
    }
}

} // verus!
