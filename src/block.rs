//! A block: a sorted, prefix-compressed run of entries followed by an
//! offset table and the entry count.
//!
//! Encoded form (every integer a little-endian `u16`):
//! `entry_0 | .. | entry_{n-1} | offset_0 | .. | offset_{n-1} | n`,
//! where an entry is `overlap | rest_len | rest | value_len | value` and its
//! key is the first `overlap` bytes of the block's first key followed by `rest`.
use vstd::prelude::*;

use crate::key::lex_lt;

verus! {

pub const SIZEOF_U16: usize = 2;

/// The largest value of a `u16`, which bounds lengths and counts in a block.
pub const MAX_U16: usize = 65535;

/// The little-endian `u16` stored at position `p` of `d`.
pub open spec fn u16_at(d: Seq<u8>, p: int) -> int {
    d[p] as int + 256 * (d[p + 1] as int)
}

/// The two little-endian bytes of `x`.
pub open spec fn le_u16(x: int) -> Seq<u8> {
    seq![(x % 256) as u8, (x / 256) as u8]
}

/// Reads the little-endian `u16` at position `p`.
pub fn read_u16(d: &[u8], p: usize) -> (r: usize)
    requires
        p + 2 <= d@.len(),
    ensures
        r == u16_at(d@, p as int),
        r <= MAX_U16,
{
    d[p] as usize + 256 * (d[p + 1] as usize)
}

/// Appends `x` as two little-endian bytes.
pub fn put_u16(buf: &mut Vec<u8>, x: u16)
    ensures
        final(buf)@ == old(buf)@ + le_u16(x as int),
{
    buf.push((x % 256) as u8);
    buf.push((x / 256) as u8);
    assert(final(buf)@ =~= old(buf)@ + le_u16(x as int));
}

/// The overlap field of the entry that starts at `p`.
pub open spec fn entry_overlap(d: Seq<u8>, p: int) -> int {
    u16_at(d, p)
}

pub open spec fn entry_rest_len(d: Seq<u8>, p: int) -> int {
    u16_at(d, p + 2)
}

pub open spec fn entry_value_start(d: Seq<u8>, p: int) -> int {
    p + 6 + entry_rest_len(d, p)
}

pub open spec fn entry_value_len(d: Seq<u8>, p: int) -> int {
    u16_at(d, p + 4 + entry_rest_len(d, p))
}

pub open spec fn entry_end(d: Seq<u8>, p: int) -> int {
    entry_value_start(d, p) + entry_value_len(d, p)
}

/// An entry starts at `p` and lies within `d`, and its overlap fits a first
/// key of length `first_len`.
pub open spec fn entry_ok(d: Seq<u8>, p: int, first_len: int) -> bool {
    &&& 0 <= p
    &&& p + 4 <= d.len()
    &&& p + 6 + entry_rest_len(d, p) <= d.len()
    &&& entry_end(d, p) <= d.len()
    &&& entry_overlap(d, p) <= first_len
}

/// The key of the entry at `p`, given the block's first key.
pub open spec fn entry_key(d: Seq<u8>, p: int, first: Seq<u8>) -> Seq<u8> {
    first.subrange(0, entry_overlap(d, p)) + d.subrange(p + 4, p + 4 + entry_rest_len(d, p))
}

pub open spec fn entry_value(d: Seq<u8>, p: int) -> Seq<u8> {
    d.subrange(entry_value_start(d, p), entry_end(d, p))
}

/// The first key of a block: the full key bytes of the entry at position 0.
pub open spec fn first_key_of(d: Seq<u8>) -> Seq<u8> {
    d.subrange(4, 4 + entry_rest_len(d, 0))
}

/// The entries that `data` and `offsets` describe, as (key, value) pairs.
pub open spec fn entries_of(data: Seq<u8>, offsets: Seq<u16>) -> Seq<(Seq<u8>, Seq<u8>)> {
    Seq::new(
        offsets.len(),
        |i: int|
            (
                entry_key(data, offsets[i] as int, first_key_of(data)),
                entry_value(data, offsets[i] as int),
            ),
    )
}

/// Keys strictly ascending.
pub open spec fn keys_ascending(s: Seq<(Seq<u8>, Seq<u8>)>) -> bool {
    forall|i: int, j: int| 0 <= i < j < s.len() ==> lex_lt(#[trigger] s[i].0, #[trigger] s[j].0)
}

/// An immutable block of entries.
pub struct Block {
    pub data: Vec<u8>,
    pub offsets: Vec<u16>,
}

impl View for Block {
    type V = Seq<(Seq<u8>, Seq<u8>)>;

    open spec fn view(&self) -> Seq<(Seq<u8>, Seq<u8>)> {
        entries_of(self.data@, self.offsets@)
    }
}

impl Block {
    /// Every offset points at an entry that lies inside the data.
    pub open spec fn entries_in_bounds(&self) -> bool {
        let d = self.data@;
        &&& 1 <= self.offsets@.len() <= MAX_U16
        &&& self.offsets@[0] == 0
        &&& 4 + entry_rest_len(d, 0) <= d.len()
        &&& forall|i: int|
            0 <= i < self.offsets@.len() ==> entry_ok(
                d,
                #[trigger] self.offsets@[i] as int,
                first_key_of(d).len() as int,
            )
    }

    /// A block that can be searched: its entries are in bounds, its keys are
    /// non-empty and strictly ascending.
    pub open spec fn well_formed(&self) -> bool {
        &&& self.entries_in_bounds()
        &&& forall|i: int| 0 <= i < self@.len() ==> (#[trigger] self@[i]).0.len() > 0
        &&& keys_ascending(self@)
    }

    pub fn num_entries(&self) -> (r: usize)
        ensures
            r == self@.len(),
    {
        self.offsets.len()
    }

    /// The first key of the block, in full.
    pub fn get_first_key(&self) -> (r: Vec<u8>)
        requires
            self.entries_in_bounds(),
        ensures
            r@ == first_key_of(self.data@),
    {
        let rest_len = read_u16(self.data.as_slice(), 2);
        let mut r: Vec<u8> = Vec::new();
        let mut i: usize = 4;
        while i < 4 + rest_len
            invariant
                4 <= i <= 4 + rest_len,
                rest_len == entry_rest_len(self.data@, 0),
                4 + rest_len <= self.data@.len(),
                r@ == self.data@.subrange(4, i as int),
            decreases 4 + rest_len - i,
        {
            r.push(self.data[i]);
            i = i + 1;
            assert(r@ =~= self.data@.subrange(4, i as int));
        }
        r
    }

    /// The encoded form: data, then the offset table, then the entry count.
    pub fn encode(&self) -> (r: Vec<u8>)
        requires
            self.offsets@.len() <= MAX_U16,
        ensures
            r@ == block_encoding(self.data@, self.offsets@),
    {
        let mut buf: Vec<u8> = Vec::new();
        let mut i: usize = 0;
        while i < self.data.len()
            invariant
                i <= self.data@.len(),
                buf@ == self.data@.subrange(0, i as int),
            decreases self.data@.len() - i,
        {
            buf.push(self.data[i]);
            i = i + 1;
            assert(buf@ =~= self.data@.subrange(0, i as int));
        }
        assert(buf@ =~= self.data@);
        let mut j: usize = 0;
        while j < self.offsets.len()
            invariant
                j <= self.offsets@.len(),
                buf@ == self.data@ + offsets_bytes(self.offsets@.take(j as int)),
            decreases self.offsets@.len() - j,
        {
            put_u16(&mut buf, self.offsets[j]);
            j = j + 1;
            assert(offsets_bytes(self.offsets@.take(j as int)) =~= offsets_bytes(
                self.offsets@.take(j - 1),
            ) + le_u16(self.offsets@[j - 1] as int));
        }
        assert(self.offsets@.take(j as int) =~= self.offsets@);
        put_u16(&mut buf, self.offsets.len() as u16);
        buf
    }

    /// Splits an encoded block back into its data and offset table.
    pub fn decode(d: &[u8]) -> (r: Block)
        requires
            decodable(d@),
        ensures
            r.data@ == decoded_data(d@),
            r.offsets@ == decoded_offsets(d@),
    {
        let len = d.len();
        let n = read_u16(d, len - 2);
        let start = len - 2 - 2 * n;
        let mut data: Vec<u8> = Vec::new();
        let mut i: usize = 0;
        while i < start
            invariant
                start == d@.len() - 2 - 2 * u16_at(d@, d@.len() - 2),
                i <= start,
                data@ == d@.subrange(0, i as int),
            decreases start - i,
        {
            data.push(d[i]);
            i = i + 1;
            assert(data@ =~= d@.subrange(0, i as int));
        }
        let mut offsets: Vec<u16> = Vec::new();
        let mut j: usize = 0;
        while j < n
            invariant
                n == u16_at(d@, d@.len() - 2),
                start == d@.len() - 2 - 2 * n,
                start + 2 * n + 2 == d@.len(),
                n <= MAX_U16,
                len == d@.len(),
                j <= n,
                offsets@ == decoded_offsets(d@).take(j as int),
            decreases n - j,
        {
            let x = read_u16(d, start + 2 * j);
            offsets.push(x as u16);
            j = j + 1;
            assert(offsets@ =~= decoded_offsets(d@).take(j as int));
        }
        assert(offsets@ =~= decoded_offsets(d@));
        Block { data, offsets }
    }
}

/// The offset table as bytes, two little-endian bytes per offset.
pub open spec fn offsets_bytes(s: Seq<u16>) -> Seq<u8> {
    Seq::new(
        2 * s.len(),
        |j: int|
            if j % 2 == 0 {
                (s[j / 2] % 256) as u8
            } else {
                (s[j / 2] / 256) as u8
            },
    )
}

/// The encoded form of a block with the given data and offsets.
pub open spec fn block_encoding(data: Seq<u8>, offsets: Seq<u16>) -> Seq<u8> {
    data + offsets_bytes(offsets) + le_u16(offsets.len() as int)
}

/// The bytes end in an entry count whose offset table fits before it.
pub open spec fn decodable(d: Seq<u8>) -> bool {
    &&& d.len() >= 2
    &&& 2 * u16_at(d, d.len() - 2) + 2 <= d.len()
}

pub open spec fn decoded_start(d: Seq<u8>) -> int {
    d.len() - 2 - 2 * u16_at(d, d.len() - 2)
}

/// The data part of an encoded block.
pub open spec fn decoded_data(d: Seq<u8>) -> Seq<u8> {
    d.subrange(0, decoded_start(d))
}

/// The offset table of an encoded block.
pub open spec fn decoded_offsets(d: Seq<u8>) -> Seq<u16> {
    Seq::new(
        u16_at(d, d.len() - 2) as nat,
        |i: int| u16_at(d, decoded_start(d) + 2 * i) as u16,
    )
}

/// Decoding an encoded block gives back its data and offset table, and so
/// the same entries.
pub proof fn lemma_block_round_trip(data: Seq<u8>, offsets: Seq<u16>)
    requires
        offsets.len() <= MAX_U16,
    ensures
        decodable(block_encoding(data, offsets)),
        decoded_data(block_encoding(data, offsets)) == data,
        decoded_offsets(block_encoding(data, offsets)) == offsets,
        entries_of(
            decoded_data(block_encoding(data, offsets)),
            decoded_offsets(block_encoding(data, offsets)),
        ) == entries_of(data, offsets),
{
    let e = block_encoding(data, offsets);
    let n = offsets.len() as int;
    assert(u16_at(e, e.len() - 2) == n);
    assert(decoded_data(e) =~= data);
    assert forall|i: int| 0 <= i < n implies u16_at(e, data.len() + 2 * i) == offsets[i] by {
        assert(e[data.len() + 2 * i] == offsets_bytes(offsets)[2 * i]);
        assert(e[data.len() + 2 * i + 1] == offsets_bytes(offsets)[2 * i + 1]);
    }
    assert(decoded_offsets(e) =~= offsets);
}

} // verus!
