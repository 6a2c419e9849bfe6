//! Builds a block from a sorted stream of key/value pairs.
use vstd::prelude::*;

use crate::block::{
    block_encoding, decodable, decoded_data, decoded_offsets, lemma_block_round_trip,
    entries_of, entry_end, entry_key, entry_ok, entry_overlap, entry_rest_len,
    entry_value, entry_value_len, entry_value_start, first_key_of, keys_ascending, le_u16,
    put_u16, u16_at, Block, MAX_U16, SIZEOF_U16,
};
use crate::key::{common_prefix_len, compute_overlap, lemma_common_prefix_len};

verus! {

/// The encoded entry of `key` and `value`, its key compressed against `first`.
pub open spec fn entry_encoding(first: Seq<u8>, key: Seq<u8>, value: Seq<u8>) -> Seq<u8> {
    let ov = common_prefix_len(first, key);
    le_u16(ov) + le_u16(key.len() - ov) + key.subrange(ov, key.len() as int) + le_u16(
        value.len() as int,
    ) + value
}

/// The key that the entry at position `i` of `es` is compressed against:
/// nothing for the first entry, the first key for the others.
pub open spec fn compression_base(es: Seq<(Seq<u8>, Seq<u8>)>, i: int) -> Seq<u8> {
    if i == 0 {
        Seq::empty()
    } else {
        es[0].0
    }
}

/// The entry payload of a block holding `es`, in order.
pub open spec fn entries_encoding(es: Seq<(Seq<u8>, Seq<u8>)>) -> Seq<u8>
    decreases es.len(),
{
    if es.len() == 0 {
        Seq::empty()
    } else {
        entries_encoding(es.drop_last()) + entry_encoding(
            compression_base(es, es.len() - 1),
            es.last().0,
            es.last().1,
        )
    }
}

/// The offset table of a block holding `es`: where each pair's encoding
/// starts in the payload.
pub open spec fn offsets_for(es: Seq<(Seq<u8>, Seq<u8>)>) -> Seq<u16> {
    Seq::new(es.len(), |i: int| entries_encoding(es.take(i)).len() as u16)
}

/// The encoded block holding `es`.
pub open spec fn encoded_block_of(es: Seq<(Seq<u8>, Seq<u8>)>) -> Seq<u8> {
    block_encoding(entries_encoding(es), offsets_for(es))
}

/// Every key is non-empty and every length fits a `u16`.
pub open spec fn pairs_fit(es: Seq<(Seq<u8>, Seq<u8>)>) -> bool {
    forall|i: int|
        0 <= i < es.len() ==> 1 <= (#[trigger] es[i]).0.len() <= MAX_U16 && es[i].1.len()
            <= MAX_U16
}

/// Every key after the first shares at least two leading bytes with it.
pub open spec fn later_keys_share_two(es: Seq<(Seq<u8>, Seq<u8>)>) -> bool {
    forall|i: int| 1 <= i < es.len() ==> common_prefix_len(es[0].0, #[trigger] es[i].0) >= 2
}

/// Builds a block.
pub struct BlockBuilder {
    /// Offsets of each key-value entry.
    offsets: Vec<u16>,
    /// All serialized key-value pairs in the block.
    data: Vec<u8>,
    /// The expected block size.
    block_size: usize,
    /// The first key in the block.
    first_key: Vec<u8>,
    /// The pairs added so far, in order.
    entries: Ghost<Seq<(Seq<u8>, Seq<u8>)>>,
}

impl BlockBuilder {
    /// The pairs added so far, in order.
    pub closed spec fn pairs(&self) -> Seq<(Seq<u8>, Seq<u8>)> {
        self.entries@
    }

    pub closed spec fn target_size(&self) -> nat {
        self.block_size as nat
    }

    /// Size of the block once built: entry count, offset table and entries.
    pub open spec fn size_spec(&self) -> int {
        (2 + 2 * self.pairs().len() + entries_encoding(self.pairs()).len()) as int
    }

    pub closed spec fn wf(&self) -> bool {
        let es = self.entries@;
        &&& self.block_size <= MAX_U16
        &&& pairs_fit(es)
        &&& self.offsets@.len() == es.len()
        &&& self.data@ == entries_encoding(es)
        &&& forall|i: int|
            0 <= i < es.len() ==> #[trigger] self.offsets@[i] as int == entries_encoding(
                es.take(i),
            ).len()
        &&& self.first_key@ == compression_base(es, es.len() as int)
        &&& (es.len() <= 1 || self.size_spec() <= self.block_size + 2)
        &&& (later_keys_share_two(es) && es.len() > 1 ==> self.size_spec() <= self.block_size)
        &&& es.len() <= MAX_U16
        &&& self.data@.len() <= 6 + 2 * MAX_U16
    }

    /// Creates a new block builder for blocks of about `block_size` bytes.
    pub fn new(block_size: usize) -> (r: Self)
        requires
            block_size <= MAX_U16,
        ensures
            r.wf(),
            r.pairs() == Seq::<(Seq<u8>, Seq<u8>)>::empty(),
            r.target_size() == block_size,
    {
        BlockBuilder {
            offsets: Vec::new(),
            data: Vec::new(),
            block_size,
            first_key: Vec::new(),
            entries: Ghost(Seq::empty()),
        }
    }

    /// Estimated size of the encoded block.
    pub fn estimated_size(&self) -> (r: usize)
        requires
            self.wf(),
        ensures
            r == self.size_spec(),
    {
        SIZEOF_U16 + self.offsets.len() * SIZEOF_U16 + self.data.len()
    }

    /// Check if there is no key-value pair in the block.
    pub fn is_empty(&self) -> (r: bool)
        requires
            self.wf(),
        ensures
            r == (self.pairs().len() == 0),
    {
        self.offsets.len() == 0
    }

    /// Adds a key-value pair to the block. Returns false, and leaves the
    /// block as it was, when the block is non-empty and the pair would take
    /// it past its target size.
    pub fn add(&mut self, key: &[u8], value: &[u8]) -> (r: bool)
        requires
            old(self).wf(),
            1 <= key@.len() <= MAX_U16,
            value@.len() <= MAX_U16,
        ensures
            final(self).wf(),
            final(self).target_size() == old(self).target_size(),
            r == (old(self).pairs().len() == 0 || old(self).size_spec() + key@.len()
                + value@.len() + 6 <= old(self).target_size()),
            r ==> final(self).pairs() == old(self).pairs().push((key@, value@)),
            !r ==> final(self).pairs() == old(self).pairs(),
    {
        if self.estimated_size() + key.len() + value.len() + 3 * SIZEOF_U16 > self.block_size
            && !self.is_empty() {
            return false;
        }
        let ghost old_es = self.entries@;
        let ghost new_es = old_es.push((key@, value@));
        proof {
            lemma_encoding_len(old_es);
            lemma_common_prefix_len(self.first_key@, key@);
        }
        self.offsets.push(self.data.len() as u16);
        let overlap = compute_overlap(self.first_key.as_slice(), key);
        put_u16(&mut self.data, overlap as u16);
        put_u16(&mut self.data, (key.len() - overlap) as u16);
        extend_from(&mut self.data, key, overlap);
        put_u16(&mut self.data, value.len() as u16);
        extend_from(&mut self.data, value, 0);
        if self.first_key.len() == 0 {
            extend_from(&mut self.first_key, key, 0);
        }
        self.entries = Ghost(new_es);
        proof {
            assert(new_es.drop_last() =~= old_es);
            assert(value@.subrange(0, value@.len() as int) =~= value@);
            assert(key@.subrange(0, key@.len() as int) =~= key@);
            assert(self.data@ =~= entries_encoding(new_es));
            assert forall|i: int| 0 <= i < new_es.len() implies #[trigger] self.offsets@[i] as int
                == entries_encoding(new_es.take(i)).len() by {
                if i < old_es.len() {
                    assert(new_es.take(i) =~= old_es.take(i));
                } else {
                    assert(new_es.take(i) =~= old_es);
                }
            }
            assert(self.first_key@ =~= compression_base(new_es, new_es.len() as int));
            lemma_encoding_len(new_es);
            assert(pairs_fit(new_es)) by {
                assert forall|i: int| 0 <= i < new_es.len() implies 1 <= (
                #[trigger] new_es[i]).0.len() <= MAX_U16 && new_es[i].1.len() <= MAX_U16 by {
                    if i < old_es.len() {
                        assert(new_es[i] == old_es[i]);
                    }
                }
            }
            lemma_entry_encoding_len(
                compression_base(new_es, old_es.len() as int),
                key@,
                value@,
            );
            assert(self.size_spec() == old(self).size_spec() + 2 + entry_encoding(
                compression_base(new_es, old_es.len() as int),
                key@,
                value@,
            ).len());
            assert(self.block_size <= MAX_U16);
            assert(self.offsets@.len() == new_es.len());
            if later_keys_share_two(new_es) && new_es.len() > 1 {
                assert(common_prefix_len(new_es[0].0, new_es[old_es.len() as int].0) >= 2);
            }
            assert(new_es.len() <= MAX_U16);
            assert(self.data@.len() <= 6 + 2 * MAX_U16);
        }
        true
    }

    /// What a well-formed builder holds: keys and values that fit, and an
    /// encoded size that the first-pair rule and the target size bound.
    pub proof fn lemma_wf(&self)
        requires
            self.wf(),
        ensures
            pairs_fit(self.pairs()),
            self.pairs().len() <= MAX_U16,
            self.target_size() <= MAX_U16,
            self.size_spec() <= 10 + 2 * MAX_U16,
            encoded_block_of(self.pairs()).len() == self.size_spec(),
    {
    }

    /// Finalizes the block and encodes it.
    pub fn build_encoded(self) -> (r: Vec<u8>)
        requires
            self.wf(),
            self.pairs().len() > 0,
        ensures
            r@ == encoded_block_of(self.pairs()),
            r@.len() == self.size_spec(),
    {
        let ghost es = self.pairs();
        proof {
            self.lemma_wf();
        }
        let block = self.build();
        block.encode()
    }

    /// Decoding the encoded form of the block being built gives back the
    /// pairs added, in order, byte for byte.
    pub proof fn lemma_pairs_round_trip(&self)
        requires
            self.wf(),
            self.pairs().len() > 0,
        ensures
            decodable(encoded_block_of(self.pairs())),
            entries_of(
                decoded_data(encoded_block_of(self.pairs())),
                decoded_offsets(encoded_block_of(self.pairs())),
            ) == self.pairs(),
    {
        let es = self.entries@;
        lemma_block_of_encoding(es, self.offsets@);
        assert(self.offsets@ =~= offsets_for(es));
        lemma_block_round_trip(entries_encoding(es), offsets_for(es));
    }

    /// A block of two or more pairs stays within two bytes of its target
    /// size; within the target itself when each key after the first shares
    /// two or more leading bytes with the first.
    pub proof fn lemma_size_bound(&self)
        requires
            self.wf(),
        ensures
            self.pairs().len() <= 1 || self.size_spec() <= self.target_size() + 2,
            later_keys_share_two(self.pairs()) ==> self.pairs().len() <= 1 || self.size_spec()
                <= self.target_size(),
    {
    }

    /// Finalizes the block: its entries are the pairs added, in order.
    pub fn build(self) -> (r: Block)
        requires
            self.wf(),
            self.pairs().len() > 0,
        ensures
            r@ == self.pairs(),
            r.data@ == entries_encoding(self.pairs()),
            r.offsets@ == offsets_for(self.pairs()),
            r.entries_in_bounds(),
            keys_ascending(self.pairs()) ==> r.well_formed(),
    {
        proof {
            lemma_encoding_len(self.entries@);
            lemma_block_of_encoding(self.entries@, self.offsets@);
            assert(self.offsets@ =~= offsets_for(self.entries@));
        }
        Block { data: self.data, offsets: self.offsets }
    }
}

/// Appends `src[from..]` to `buf`.
fn extend_from(buf: &mut Vec<u8>, src: &[u8], from: usize)
    requires
        from <= src@.len(),
    ensures
        final(buf)@ == old(buf)@ + src@.subrange(from as int, src@.len() as int),
{
    let mut i: usize = from;
    while i < src.len()
        invariant
            from <= i <= src@.len(),
            buf@ == old(buf)@ + src@.subrange(from as int, i as int),
        decreases src@.len() - i,
    {
        buf.push(src[i]);
        i = i + 1;
        assert(buf@ =~= old(buf)@ + src@.subrange(from as int, i as int));
    }
}

/// An encoded pair takes six bytes more than its key rest and value.
proof fn lemma_entry_encoding_len(first: Seq<u8>, key: Seq<u8>, value: Seq<u8>)
    ensures
        entry_encoding(first, key, value).len() == 6 + key.len() - common_prefix_len(first, key)
            + value.len(),
        entry_encoding(first, key, value).len() >= 6 + value.len(),
{
    lemma_common_prefix_len(first, key);
}

/// The payload of `es` is at least six bytes per pair, and one pair takes
/// at most six bytes more than its key and value.
proof fn lemma_encoding_len(es: Seq<(Seq<u8>, Seq<u8>)>)
    requires
        pairs_fit(es),
    ensures
        entries_encoding(es).len() >= 6 * es.len(),
        es.len() == 1 ==> entries_encoding(es).len() <= 6 + 2 * MAX_U16,
    decreases es.len(),
{
    if es.len() > 0 {
        let dl = es.drop_last();
        assert(pairs_fit(dl)) by {
            assert forall|i: int| 0 <= i < dl.len() implies 1 <= (#[trigger] dl[i]).0.len()
                <= MAX_U16 && dl[i].1.len() <= MAX_U16 by {
                assert(dl[i] == es[i]);
            }
        }
        lemma_encoding_len(dl);
        let b = compression_base(es, es.len() - 1);
        lemma_common_prefix_len(b, es.last().0);
        assert(es.last() == es[es.len() - 1]);
        lemma_entry_encoding_len(b, es.last().0, es.last().1);
    }
}

/// The payload of a prefix of `es` is a prefix of the payload of `es`.
proof fn lemma_encoding_prefix(es: Seq<(Seq<u8>, Seq<u8>)>, j: int)
    requires
        0 <= j <= es.len(),
    ensures
        entries_encoding(es.take(j)).len() <= entries_encoding(es).len(),
        entries_encoding(es).subrange(0, entries_encoding(es.take(j)).len() as int)
            == entries_encoding(es.take(j)),
    decreases es.len(),
{
    if j == es.len() {
        assert(es.take(j) =~= es);
        assert(entries_encoding(es).subrange(0, entries_encoding(es).len() as int)
            =~= entries_encoding(es));
    } else {
        let dl = es.drop_last();
        assert(dl.take(j) =~= es.take(j));
        lemma_encoding_prefix(dl, j);
        let p = entries_encoding(es.take(j));
        assert(entries_encoding(es).subrange(0, p.len() as int) =~= entries_encoding(
            dl,
        ).subrange(0, p.len() as int));
    }
}

/// Reading back an encoded pair from the bytes that hold it.
proof fn lemma_entry_parse(d: Seq<u8>, p: int, first: Seq<u8>, key: Seq<u8>, value: Seq<u8>)
    requires
        0 <= p,
        p + entry_encoding(first, key, value).len() <= d.len(),
        d.subrange(p, p + entry_encoding(first, key, value).len()) == entry_encoding(
            first,
            key,
            value,
        ),
        key.len() <= MAX_U16,
        value.len() <= MAX_U16,
    ensures
        entry_overlap(d, p) == common_prefix_len(first, key),
        entry_rest_len(d, p) == key.len() - common_prefix_len(first, key),
        d.subrange(p + 4, p + 4 + entry_rest_len(d, p)) == key.subrange(
            common_prefix_len(first, key),
            key.len() as int,
        ),
        entry_value_start(d, p) == p + 6 + entry_rest_len(d, p),
        entry_value_len(d, p) == value.len(),
        entry_end(d, p) == p + entry_encoding(first, key, value).len(),
        entry_value(d, p) == value,
{
    lemma_common_prefix_len(first, key);
    let e = entry_encoding(first, key, value);
    let ov = common_prefix_len(first, key);
    let rl = key.len() - ov;
    let rest = key.subrange(ov, key.len() as int);
    assert forall|j: int| 0 <= j < e.len() implies d[p + j] == e[j] by {
        assert(d.subrange(p, p + e.len())[j] == e[j]);
    }
    assert(e[0] == le_u16(ov)[0]);
    assert(e[1] == le_u16(ov)[1]);
    assert(e[2] == le_u16(rl)[0]);
    assert(e[3] == le_u16(rl)[1]);
    assert(u16_at(d, p) == ov);
    assert(u16_at(d, p + 2) == rl);
    assert forall|j: int| 0 <= j < rl implies d[p + 4 + j] == rest[j] by {
        assert(e[4 + j] == rest[j]);
    }
    assert(d.subrange(p + 4, p + 4 + rl) =~= rest);
    assert(e[4 + rl] == le_u16(value.len() as int)[0]);
    assert(e[5 + rl] == le_u16(value.len() as int)[1]);
    assert(u16_at(d, p + 4 + rl) == value.len());
    assert forall|j: int| 0 <= j < value.len() implies d[p + 6 + rl + j] == value[j] by {
        assert(e[6 + rl + j] == value[j]);
    }
    assert(entry_value(d, p) =~= value);
}

/// The block whose data is the payload of `es`, with an offset table that
/// points at each pair's encoding, holds exactly `es`.
proof fn lemma_block_of_encoding(es: Seq<(Seq<u8>, Seq<u8>)>, offsets: Seq<u16>)
    requires
        es.len() >= 1,
        es.len() <= MAX_U16,
        pairs_fit(es),
        offsets.len() == es.len(),
        forall|i: int|
            0 <= i < es.len() ==> #[trigger] offsets[i] as int == entries_encoding(
                es.take(i),
            ).len(),
    ensures
        entries_of(entries_encoding(es), offsets) == es,
        first_key_of(entries_encoding(es)) == es[0].0,
        offsets[0] == 0,
        4 + entry_rest_len(entries_encoding(es), 0) <= entries_encoding(es).len(),
        forall|i: int|
            0 <= i < offsets.len() ==> entry_ok(
                entries_encoding(es),
                #[trigger] offsets[i] as int,
                first_key_of(entries_encoding(es)).len() as int,
            ),
{
    let d = entries_encoding(es);
    let first = es[0].0;
    assert forall|i: int| 0 <= i < es.len() implies entry_ok(
        d,
        #[trigger] offsets[i] as int,
        first.len() as int,
    ) && entry_key(d, offsets[i] as int, first) == es[i].0 && entry_value(d, offsets[i] as int)
        == es[i].1 by {
        lemma_pair_at(es, i);
    }
    lemma_pair_at(es, 0);
    assert(es.take(0) =~= Seq::<(Seq<u8>, Seq<u8>)>::empty());
    assert(first_key_of(d) =~= first);
    assert(entries_of(d, offsets) =~= es);
}

/// The bytes of `d` that follow the prefix `pre` are `e` when `d` starts with
/// `pre + e`.
proof fn lemma_middle(d: Seq<u8>, pre: Seq<u8>, e: Seq<u8>)
    requires
        (pre.len() + e.len()) as int <= d.len(),
        d.subrange(0, (pre.len() + e.len()) as int) == pre + e,
    ensures
        d.subrange(pre.len() as int, (pre.len() + e.len()) as int) == e,
{
    assert forall|j: int| 0 <= j < e.len() implies d[pre.len() as int + j] == e[j] by {
        assert(d.subrange(0, (pre.len() + e.len()) as int)[pre.len() as int + j] == (pre
            + e)[pre.len() as int + j]);
        assert((pre + e)[pre.len() as int + j] == e[j]);
    }
    assert(d.subrange(pre.len() as int, (pre.len() + e.len()) as int) =~= e);
}

/// The payload of the first `i + 1` pairs is that of the first `i` followed
/// by the encoding of pair `i`.
proof fn lemma_encoding_step(es: Seq<(Seq<u8>, Seq<u8>)>, i: int)
    requires
        0 <= i < es.len(),
    ensures
        entries_encoding(es.take(i + 1)) == entries_encoding(es.take(i)) + entry_encoding(
            compression_base(es, i),
            es[i].0,
            es[i].1,
        ),
{
    let t = es.take(i + 1);
    assert(t.drop_last() =~= es.take(i));
    assert(compression_base(t, i) == compression_base(es, i));
}

/// The pair at position `i` reads back from the payload of `es`.
proof fn lemma_pair_at(es: Seq<(Seq<u8>, Seq<u8>)>, i: int)
    requires
        0 <= i < es.len(),
        pairs_fit(es),
    ensures
        ({
            let d = entries_encoding(es);
            let p = entries_encoding(es.take(i)).len() as int;
            &&& entry_ok(d, p, es[0].0.len() as int)
            &&& entry_key(d, p, es[0].0) == es[i].0
            &&& entry_value(d, p) == es[i].1
            &&& (i == 0 ==> p == 0 && entry_rest_len(d, 0) == es[0].0.len())
        }),
{
    let d = entries_encoding(es);
    let pre = entries_encoding(es.take(i));
    let p = pre.len() as int;
    let b = compression_base(es, i);
    let k = es[i].0;
    let v = es[i].1;
    assert(1 <= k.len() <= MAX_U16 && v.len() <= MAX_U16);
    let e = entry_encoding(b, k, v);
    lemma_encoding_step(es, i);
    lemma_encoding_prefix(es, i + 1);
    lemma_middle(d, pre, e);
    lemma_common_prefix_len(b, k);
    lemma_entry_parse(d, p, b, k, v);
    let ov = common_prefix_len(b, k);
    if i == 0 {
        assert(es.take(0) =~= Seq::<(Seq<u8>, Seq<u8>)>::empty());
        assert(ov == 0);
        assert(entry_key(d, p, es[0].0) =~= k);
    } else {
        assert(es[0].0.subrange(0, ov) == k.subrange(0, ov));
        assert(entry_key(d, p, es[0].0) =~= k);
    }
}

} // verus!
