//! Builds a sorted string table: a run of encoded blocks, the block meta
//! records, and the meta offset as a little-endian `u32`.
use vstd::prelude::*;

use crate::block::{le_u16, put_u16, read_u16, u16_at, MAX_U16};
use crate::block_builder::{encoded_block_of, pairs_fit, BlockBuilder};

verus! {

/// The largest size of sealed blocks that a builder accepts more pairs at;
/// it keeps every offset within a `u32`.
pub const SST_DATA_LIMIT: usize = 4000000000;

/// The largest value of a `u32`.
pub const MAX_U32: usize = 4294967295;

/// The four little-endian bytes of `x`.
pub open spec fn le_u32(x: int) -> Seq<u8> {
    seq![(x % 256) as u8, (x / 256 % 256) as u8, (x / 65536 % 256) as u8, (x / 16777216) as u8]
}

/// The little-endian `u32` stored at position `p` of `d`.
pub open spec fn u32_at(d: Seq<u8>, p: int) -> int {
    d[p] as int + 256 * (d[p + 1] as int) + 65536 * (d[p + 2] as int) + 16777216 * (
    d[p + 3] as int)
}

/// Appends `x` as four little-endian bytes.
pub fn put_u32(buf: &mut Vec<u8>, x: u32)
    ensures
        final(buf)@ == old(buf)@ + le_u32(x as int),
{
    buf.push((x % 256) as u8);
    buf.push((x / 256 % 256) as u8);
    buf.push((x / 65536 % 256) as u8);
    buf.push((x / 16777216) as u8);
    assert(final(buf)@ =~= old(buf)@ + le_u32(x as int));
}

/// Where one block lies in a table and which keys it spans.
pub struct BlockMeta {
    /// Offset of the block in the table.
    pub offset: usize,
    pub first_key: Vec<u8>,
    pub last_key: Vec<u8>,
}

impl View for BlockMeta {
    type V = (int, Seq<u8>, Seq<u8>);

    open spec fn view(&self) -> (int, Seq<u8>, Seq<u8>) {
        (self.offset as int, self.first_key@, self.last_key@)
    }
}

/// The views of a list of meta records.
pub open spec fn metas_view(ms: Seq<BlockMeta>) -> Seq<(int, Seq<u8>, Seq<u8>)> {
    Seq::new(ms.len(), |i: int| ms[i]@)
}

/// One meta record: `first_len | first_key | last_len | last_key | offset`.
pub open spec fn meta_record(m: (int, Seq<u8>, Seq<u8>)) -> Seq<u8> {
    le_u16(m.1.len() as int) + m.1 + le_u16(m.2.len() as int) + m.2 + le_u32(m.0)
}

/// The meta section: each record in turn.
pub open spec fn meta_encoding(ms: Seq<(int, Seq<u8>, Seq<u8>)>) -> Seq<u8>
    decreases ms.len(),
{
    if ms.len() == 0 {
        Seq::empty()
    } else {
        meta_encoding(ms.drop_last()) + meta_record(ms.last())
    }
}

/// The record fits its layout: keys of at most `u16` bytes, a `u32` offset.
pub open spec fn meta_fits(m: (int, Seq<u8>, Seq<u8>)) -> bool {
    &&& 0 <= m.0 <= MAX_U32
    &&& m.1.len() <= MAX_U16
    &&& m.2.len() <= MAX_U16
}

/// Every record fits its layout.
pub open spec fn metas_fit(ms: Seq<(int, Seq<u8>, Seq<u8>)>) -> bool {
    forall|i: int| 0 <= i < ms.len() ==> meta_fits(#[trigger] ms[i])
}

/// Reads the little-endian `u32` at position `p`.
pub fn read_u32(d: &[u8], p: usize) -> (r: usize)
    requires
        p + 4 <= d@.len(),
    ensures
        r == u32_at(d@, p as int),
        r <= MAX_U32,
{
    d[p] as usize + 256 * (d[p + 1] as usize) + 65536 * (d[p + 2] as usize) + 16777216 * (d[p
        + 3] as usize)
}

proof fn lemma_u32_round_trip(x: int)
    requires
        0 <= x <= MAX_U32,
    ensures
        u32_at(le_u32(x), 0) == x,
{
    let s = le_u32(x);
    assert(s[0] as int == x % 256);
    assert(s[1] as int == x / 256 % 256);
    assert(s[2] as int == x / 65536 % 256);
    assert(s[3] as int == x / 16777216);
    assert(x % 256 + 256 * (x / 256 % 256) + 65536 * (x / 65536 % 256) + 16777216 * (x
        / 16777216) == x) by (nonlinear_arith)
        requires
            0 <= x <= MAX_U32,
    ;
}

/// The meta section seen from the front: the first record, then the rest.
proof fn lemma_meta_encoding_front(ms: Seq<(int, Seq<u8>, Seq<u8>)>)
    requires
        ms.len() >= 1,
    ensures
        meta_encoding(ms) == meta_record(ms[0]) + meta_encoding(ms.drop_first()),
    decreases ms.len(),
{
    if ms.len() == 1 {
        assert(ms.drop_first() =~= Seq::<(int, Seq<u8>, Seq<u8>)>::empty());
        assert(ms.drop_last() =~= Seq::<(int, Seq<u8>, Seq<u8>)>::empty());
        assert(meta_encoding(ms) =~= meta_record(ms[0]) + meta_encoding(ms.drop_first()));
    } else {
        lemma_meta_encoding_front(ms.drop_last());
        assert(ms.drop_last().drop_first() =~= ms.drop_first().drop_last());
        assert(ms.drop_first().last() == ms.last());
        assert(meta_encoding(ms) =~= meta_record(ms[0]) + meta_encoding(ms.drop_first()));
    }
}

/// A record reads back from the bytes that hold it.
proof fn lemma_meta_record_parse(d: Seq<u8>, p: int, m: (int, Seq<u8>, Seq<u8>))
    requires
        meta_fits(m),
        0 <= p,
        p + meta_record(m).len() <= d.len(),
        d.subrange(p, p + meta_record(m).len()) == meta_record(m),
    ensures
        u16_at(d, p) == m.1.len(),
        u16_at(d, p + 2 + m.1.len()) == m.2.len(),
        d.subrange(p + 2, p + 2 + m.1.len()) == m.1,
        d.subrange(p + 4 + m.1.len(), p + 4 + m.1.len() + m.2.len()) == m.2,
        u32_at(d, p + 4 + m.1.len() + m.2.len()) == m.0,
        meta_record(m).len() == 8 + m.1.len() + m.2.len(),
{
    let e = meta_record(m);
    let fl = m.1.len() as int;
    let ll = m.2.len() as int;
    assert forall|j: int| 0 <= j < e.len() implies d[p + j] == e[j] by {
        assert(d.subrange(p, p + e.len())[j] == e[j]);
    }
    assert(e[0] == le_u16(fl)[0]);
    assert(e[1] == le_u16(fl)[1]);
    assert(d.subrange(p + 2, p + 2 + fl) =~= m.1) by {
        assert forall|j: int| 0 <= j < fl implies d[p + 2 + j] == m.1[j] by {
            assert(e[2 + j] == m.1[j]);
        }
    }
    assert(e[2 + fl] == le_u16(ll)[0]);
    assert(e[3 + fl] == le_u16(ll)[1]);
    assert(d.subrange(p + 4 + fl, p + 4 + fl + ll) =~= m.2) by {
        assert forall|j: int| 0 <= j < ll implies d[p + 4 + fl + j] == m.2[j] by {
            assert(e[4 + fl + j] == m.2[j]);
        }
    }
    let q = p + 4 + fl + ll;
    assert forall|j: int| 0 <= j < 4 implies d[q + j] == le_u32(m.0)[j] by {
        assert(e[4 + fl + ll + j] == le_u32(m.0)[j]);
        assert(d[p + (4 + fl + ll + j)] == e[4 + fl + ll + j]);
    }
    assert(d.subrange(q, q + 4) =~= le_u32(m.0));
    assert(u32_at(d, q) == u32_at(d.subrange(q, q + 4), 0));
    lemma_u32_round_trip(m.0);
}

/// Appends `src` to `buf`.
fn append_bytes(buf: &mut Vec<u8>, src: &[u8])
    ensures
        final(buf)@ == old(buf)@ + src@,
{
    let mut i: usize = 0;
    while i < src.len()
        invariant
            i <= src@.len(),
            buf@ == old(buf)@ + src@.subrange(0, i as int),
        decreases src@.len() - i,
    {
        buf.push(src[i]);
        i = i + 1;
        assert(buf@ =~= old(buf)@ + src@.subrange(0, i as int));
    }
    assert(src@.subrange(0, i as int) =~= src@);
}

impl BlockMeta {
    /// Appends the meta section for `meta` to `buf`.
    pub fn encode_block_meta(meta: &Vec<BlockMeta>, buf: &mut Vec<u8>)
        requires
            forall|i: int| 0 <= i < meta@.len() ==> meta_fits(#[trigger] meta@[i]@),
        ensures
            final(buf)@ == old(buf)@ + meta_encoding(metas_view(meta@)),
    {
        let ghost ms = metas_view(meta@);
        let mut i: usize = 0;
        while i < meta.len()
            invariant
                i <= meta@.len(),
                ms == metas_view(meta@),
                forall|j: int| 0 <= j < meta@.len() ==> meta_fits(#[trigger] meta@[j]@),
                buf@ == old(buf)@ + meta_encoding(ms.take(i as int)),
            decreases meta@.len() - i,
        {
            let m = &meta[i];
            assert(meta_fits(meta@[i as int]@));
            let ghost before = buf@;
            put_u16(buf, m.first_key.len() as u16);
            append_bytes(buf, m.first_key.as_slice());
            put_u16(buf, m.last_key.len() as u16);
            append_bytes(buf, m.last_key.as_slice());
            put_u32(buf, m.offset as u32);
            assert(buf@ =~= before + meta_record(ms[i as int]));
            assert(ms.take(i + 1).drop_last() =~= ms.take(i as int));
            i = i + 1;
        }
        assert(ms.take(i as int) =~= ms);
    }
}

/// Reads a meta section back into its records. `None` when the bytes are
/// not the encoding of any list of records.
pub fn decode_block_meta(buf: &[u8]) -> (r: Option<Vec<BlockMeta>>)
    ensures
        r.is_some() ==> meta_encoding(metas_view(r.unwrap()@)) == buf@ && metas_fit(
            metas_view(r.unwrap()@),
        ),
        r.is_none() ==> forall|ms: Seq<(int, Seq<u8>, Seq<u8>)>|
            metas_fit(ms) ==> #[trigger] meta_encoding(ms) != buf@,
{
    let len = buf.len();
    let mut out: Vec<BlockMeta> = Vec::new();
    let mut p: usize = 0;
    proof {
        assert(metas_view(out@) =~= Seq::<(int, Seq<u8>, Seq<u8>)>::empty());
        assert(buf@.subrange(0, 0) =~= Seq::<u8>::empty());
        assert forall|ms: Seq<(int, Seq<u8>, Seq<u8>)>|
            metas_fit(ms) && #[trigger] meta_encoding(ms) == buf@ implies metas_view(out@)
            == ms.take(0) && buf@.subrange(0, len as int) == meta_encoding(ms.skip(0)) by {
            assert(ms.take(0) =~= Seq::<(int, Seq<u8>, Seq<u8>)>::empty());
            assert(ms.skip(0) =~= ms);
            assert(buf@.subrange(0, len as int) =~= buf@);
        }
    }
    while p < len
        invariant
            len == buf@.len(),
            p <= len,
            buf@.subrange(0, p as int) == meta_encoding(metas_view(out@)),
            metas_fit(metas_view(out@)),
            forall|ms: Seq<(int, Seq<u8>, Seq<u8>)>|
                metas_fit(ms) && #[trigger] meta_encoding(ms) == buf@ ==> out@.len() <= ms.len()
                    && metas_view(out@) == ms.take(out@.len() as int) && buf@.subrange(
                    p as int,
                    len as int,
                ) == meta_encoding(ms.skip(out@.len() as int)),
        decreases len - p,
    {
        let ghost k = out@.len() as int;
        proof {
            lemma_next_record(buf@, p as int, k);
        }
        if len - p < 2 {
            proof { lemma_no_record(buf@, p as int, k); }
            return None;
        }
        let fl = read_u16(buf, p);
        if len - p - 2 < fl + 2 {
            proof { lemma_no_record(buf@, p as int, k); }
            return None;
        }
        let ll = read_u16(buf, p + 2 + fl);
        if len - p - 4 - fl < ll + 4 {
            proof { lemma_no_record(buf@, p as int, k); }
            return None;
        }
        let first_key = vstd::slice::slice_to_vec(
            vstd::slice::slice_subrange(buf, p + 2, p + 2 + fl),
        );
        let last_key = vstd::slice::slice_to_vec(
            vstd::slice::slice_subrange(buf, p + 4 + fl, p + 4 + fl + ll),
        );
        let offset = read_u32(buf, p + 4 + fl + ll);
        let ghost m = (offset as int, first_key@, last_key@);
        let ghost old_view = metas_view(out@);
        out.push(BlockMeta { offset, first_key, last_key });
        let np = p + 8 + fl + ll;
        proof {
            assert(metas_view(out@) =~= old_view.push(m));
            assert(m.1.len() == fl && m.2.len() == ll);
            lemma_record_bytes(buf@, p as int, m);
            assert(buf@.subrange(0, np as int) =~= buf@.subrange(0, p as int) + buf@.subrange(
                p as int,
                np as int,
            ));
            assert(metas_view(out@).drop_last() =~= old_view);
            lemma_record_read(buf@, p as int, np as int, k, m);
            assert forall|ms: Seq<(int, Seq<u8>, Seq<u8>)>|
                metas_fit(ms) && #[trigger] meta_encoding(ms) == buf@ implies out@.len()
                <= ms.len() && metas_view(out@) == ms.take(out@.len() as int) && buf@.subrange(
                np as int,
                len as int,
            ) == meta_encoding(ms.skip(out@.len() as int)) by {
                assert(ms.take(k + 1) =~= ms.take(k).push(ms[k]));
            }
        }
        p = np;
    }
    proof {
        assert(buf@.subrange(0, len as int) =~= buf@);
    }
    Some(out)
}

/// Every list of records that encodes `d` and whose first `k` were read
/// from before `p` has its record `k` at `p`.
proof fn lemma_next_record(d: Seq<u8>, p: int, k: int)
    requires
        0 <= p < d.len(),
        0 <= k,
        forall|ms: Seq<(int, Seq<u8>, Seq<u8>)>|
            metas_fit(ms) && #[trigger] meta_encoding(ms) == d ==> k <= ms.len()
                && d.subrange(p, d.len() as int) == meta_encoding(ms.skip(k)),
    ensures
        forall|ms: Seq<(int, Seq<u8>, Seq<u8>)>|
            metas_fit(ms) && #[trigger] meta_encoding(ms) == d ==> k < ms.len() && p
                + meta_record(ms[k]).len() <= d.len() && d.subrange(
                p,
                p + meta_record(ms[k]).len(),
            ) == meta_record(ms[k]) && d.subrange(p + meta_record(ms[k]).len(), d.len() as int)
                == meta_encoding(ms.skip(k + 1)),
{
    assert forall|ms: Seq<(int, Seq<u8>, Seq<u8>)>|
        metas_fit(ms) && #[trigger] meta_encoding(ms) == d implies k < ms.len() && p
        + meta_record(ms[k]).len() <= d.len() && d.subrange(p, p + meta_record(ms[k]).len())
        == meta_record(ms[k]) && d.subrange(p + meta_record(ms[k]).len(), d.len() as int)
        == meta_encoding(ms.skip(k + 1)) by {
        let tail = d.subrange(p, d.len() as int);
        if k == ms.len() {
            assert(ms.skip(k) =~= Seq::<(int, Seq<u8>, Seq<u8>)>::empty());
            assert(tail.len() == 0);
        } else {
            lemma_meta_encoding_front(ms.skip(k));
            assert(ms.skip(k).drop_first() =~= ms.skip(k + 1));
            assert(ms.skip(k)[0] == ms[k]);
            let rec = meta_record(ms[k]);
            let rest = meta_encoding(ms.skip(k + 1));
            assert(tail == rec + rest);
            assert(tail.len() == rec.len() + rest.len());
            assert(d.subrange(p, p + rec.len()) =~= tail.subrange(0, rec.len() as int));
            assert(d.subrange(p + rec.len(), d.len() as int) =~= tail.subrange(
                rec.len() as int,
                tail.len() as int,
            ));
            assert((rec + rest).subrange(0, rec.len() as int) =~= rec);
            assert((rec + rest).subrange(rec.len() as int, tail.len() as int) =~= rest);
        }
    }
}

/// The bytes from `p` that a record was read from are its encoding.
proof fn lemma_record_bytes(d: Seq<u8>, p: int, m: (int, Seq<u8>, Seq<u8>))
    requires
        0 <= p,
        p + 8 + m.1.len() + m.2.len() <= d.len(),
        meta_fits(m),
        u16_at(d, p) == m.1.len(),
        u16_at(d, p + 2 + m.1.len()) == m.2.len(),
        m.1 == d.subrange(p + 2, p + 2 + m.1.len()),
        m.2 == d.subrange(p + 4 + m.1.len(), p + 4 + m.1.len() + m.2.len()),
        m.0 == u32_at(d, p + 4 + m.1.len() + m.2.len()),
    ensures
        meta_record(m) == d.subrange(p, p + 8 + m.1.len() + m.2.len()),
{
    let e = meta_record(m);
    let fl = m.1.len() as int;
    let ll = m.2.len() as int;
    let q = p + 4 + fl + ll;
    assert(d[p] as int == fl % 256 && d[p + 1] as int == fl / 256) by (nonlinear_arith)
        requires
            d[p] as int + 256 * (d[p + 1] as int) == fl,
            0 <= d[p] < 256,
            0 <= d[p + 1] < 256,
    ;
    assert(d[p + 2 + fl] as int == ll % 256 && d[p + 3 + fl] as int == ll / 256) by (nonlinear_arith)
        requires
            d[p + 2 + fl] as int + 256 * (d[p + 3 + fl] as int) == ll,
            0 <= d[p + 2 + fl] < 256,
            0 <= d[p + 3 + fl] < 256,
    ;
    let x = m.0;
    assert(d[q] as int == x % 256 && d[q + 1] as int == x / 256 % 256 && d[q + 2] as int == x
        / 65536 % 256 && d[q + 3] as int == x / 16777216) by (nonlinear_arith)
        requires
            d[q] as int + 256 * (d[q + 1] as int) + 65536 * (d[q + 2] as int) + 16777216 * (
            d[q + 3] as int) == x,
            0 <= d[q] < 256,
            0 <= d[q + 1] < 256,
            0 <= d[q + 2] < 256,
            0 <= d[q + 3] < 256,
    ;
    assert forall|j: int| 0 <= j < e.len() implies e[j] == d[p + j] by {
        if j < 2 {
        } else if j < 2 + fl {
            assert(e[j] == m.1[j - 2]);
        } else if j < 4 + fl {
        } else if j < 4 + fl + ll {
            assert(e[j] == m.2[j - 4 - fl]);
        } else {
        }
    }
    assert(e =~= d.subrange(p, p + 8 + fl + ll));
}

/// Having read record `m` from `p` to `np`, every list of records that
/// encodes `d` and agreed on the first `k` agrees on the first `k + 1`.
proof fn lemma_record_read(d: Seq<u8>, p: int, np: int, k: int, m: (int, Seq<u8>, Seq<u8>))
    requires
        0 <= p <= np <= d.len(),
        0 <= k,
        meta_fits(m),
        np == p + 8 + u16_at(d, p) + u16_at(d, p + 2 + u16_at(d, p)),
        m.1 == d.subrange(p + 2, p + 2 + u16_at(d, p)),
        m.2 == d.subrange(
            p + 4 + u16_at(d, p),
            p + 4 + u16_at(d, p) + u16_at(d, p + 2 + u16_at(d, p)),
        ),
        m.0 == u32_at(d, p + 4 + u16_at(d, p) + u16_at(d, p + 2 + u16_at(d, p))),
        forall|ms: Seq<(int, Seq<u8>, Seq<u8>)>|
            metas_fit(ms) && #[trigger] meta_encoding(ms) == d ==> k < ms.len() && p
                + meta_record(ms[k]).len() <= d.len() && d.subrange(
                p,
                p + meta_record(ms[k]).len(),
            ) == meta_record(ms[k]) && d.subrange(p + meta_record(ms[k]).len(), d.len() as int)
                == meta_encoding(ms.skip(k + 1)),
    ensures
        forall|ms: Seq<(int, Seq<u8>, Seq<u8>)>|
            metas_fit(ms) && #[trigger] meta_encoding(ms) == d ==> ms[k] == m && np == p
                + meta_record(ms[k]).len() && d.subrange(np, d.len() as int) == meta_encoding(
                ms.skip(k + 1),
            ),
{
    assert forall|ms: Seq<(int, Seq<u8>, Seq<u8>)>|
        metas_fit(ms) && #[trigger] meta_encoding(ms) == d implies ms[k] == m && np == p
        + meta_record(ms[k]).len() && d.subrange(np, d.len() as int) == meta_encoding(
        ms.skip(k + 1),
    ) by {
        assert(meta_fits(ms[k]));
        lemma_meta_record_parse(d, p, ms[k]);
    }
}

/// When the bytes left at `p` cannot hold one more record, no list of
/// records whose first `k` were read encodes the bytes.
proof fn lemma_no_record(d: Seq<u8>, p: int, k: int)
    requires
        0 <= p < d.len(),
        0 <= k,
        forall|ms: Seq<(int, Seq<u8>, Seq<u8>)>|
            metas_fit(ms) && #[trigger] meta_encoding(ms) == d ==> k < ms.len() && d.subrange(
                p,
                p + meta_record(ms[k]).len(),
            ) == meta_record(ms[k]) && p + meta_record(ms[k]).len() <= d.len(),
        !(p + 2 <= d.len() && p + 4 + u16_at(d, p) <= d.len() && p + 8 + u16_at(d, p) + u16_at(
            d,
            p + 2 + u16_at(d, p),
        ) <= d.len()),
    ensures
        forall|ms: Seq<(int, Seq<u8>, Seq<u8>)>|
            metas_fit(ms) ==> #[trigger] meta_encoding(ms) != d,
{
    assert forall|ms: Seq<(int, Seq<u8>, Seq<u8>)>| metas_fit(ms) implies #[trigger] meta_encoding(
        ms,
    ) != d by {
        if meta_encoding(ms) == d {
            assert(meta_fits(ms[k]));
            lemma_meta_record_parse(d, p, ms[k]);
        }
    }
}

/// The pairs of a list of blocks, one block after the other.
pub open spec fn concat_pairs(bs: Seq<Seq<(Seq<u8>, Seq<u8>)>>) -> Seq<(Seq<u8>, Seq<u8>)>
    decreases bs.len(),
{
    if bs.len() == 0 {
        Seq::empty()
    } else {
        concat_pairs(bs.drop_last()) + bs.last()
    }
}

/// The encoded blocks of a list of blocks, one after the other.
pub open spec fn concat_blocks(bs: Seq<Seq<(Seq<u8>, Seq<u8>)>>) -> Seq<u8>
    decreases bs.len(),
{
    if bs.len() == 0 {
        Seq::empty()
    } else {
        concat_blocks(bs.drop_last()) + encoded_block_of(bs.last())
    }
}

/// The meta record of block `i` of `bs`.
#[verifier::opaque]
pub open spec fn meta_of(bs: Seq<Seq<(Seq<u8>, Seq<u8>)>>, i: int) -> (int, Seq<u8>, Seq<u8>) {
    (concat_blocks(bs.take(i)).len() as int, bs[i][0].0, bs[i].last().0)
}

/// Every block holds at least one pair.
pub open spec fn blocks_nonempty(bs: Seq<Seq<(Seq<u8>, Seq<u8>)>>) -> bool {
    forall|i: int| 0 <= i < bs.len() ==> (#[trigger] bs[i]).len() >= 1
}

/// The meta records of a list of blocks.
pub open spec fn metas_of(bs: Seq<Seq<(Seq<u8>, Seq<u8>)>>) -> Seq<(int, Seq<u8>, Seq<u8>)> {
    Seq::new(bs.len(), |i: int| meta_of(bs, i))
}

/// Sealing one more block extends the pairs, the bytes and the meta records.
proof fn lemma_seal(bs: Seq<Seq<(Seq<u8>, Seq<u8>)>>, es: Seq<(Seq<u8>, Seq<u8>)>)
    ensures
        concat_blocks(bs.push(es)) == concat_blocks(bs) + encoded_block_of(es),
        concat_pairs(bs.push(es)) == concat_pairs(bs) + es,
        metas_of(bs.push(es)) == metas_of(bs).push(
            (concat_blocks(bs).len() as int, es[0].0, es.last().0),
        ),
{
    reveal(meta_of);
    let nbs = bs.push(es);
    assert(nbs.drop_last() =~= bs);
    assert(nbs.take(bs.len() as int) =~= bs);
    assert forall|i: int| 0 <= i < bs.len() implies meta_of(nbs, i) == meta_of(bs, i) by {
        assert(nbs.take(i) =~= bs.take(i));
        assert(nbs[i] == bs[i]);
    }
    assert(metas_of(nbs) =~= metas_of(bs).push(
        (concat_blocks(bs).len() as int, es[0].0, es.last().0),
    ));
}

/// A built table, held in memory, with the shared block cache handle it
/// was built with (`C` is the cache's type; the table only carries it).
pub struct SsTable<C> {
    pub id: usize,
    /// The whole table: blocks, meta section, meta offset.
    pub file: Vec<u8>,
    pub first_key: Vec<u8>,
    pub last_key: Vec<u8>,
    pub block_meta: Vec<BlockMeta>,
    pub block_meta_offset: usize,
    pub block_cache: Option<std::sync::Arc<C>>,
}

/// Builds an SSTable from key-value pairs.
pub struct SsTableBuilder {
    builder: BlockBuilder,
    first_key: Vec<u8>,
    last_key: Vec<u8>,
    data: Vec<u8>,
    meta: Vec<BlockMeta>,
    block_size: usize,
    /// The pairs of each sealed block.
    blocks: Ghost<Seq<Seq<(Seq<u8>, Seq<u8>)>>>,
}

impl SsTableBuilder {
    /// The pairs of the blocks sealed so far.
    pub closed spec fn sealed_blocks(&self) -> Seq<Seq<(Seq<u8>, Seq<u8>)>> {
        self.blocks@
    }

    /// The pairs of the block being filled.
    pub closed spec fn current_pairs(&self) -> Seq<(Seq<u8>, Seq<u8>)> {
        self.builder.pairs()
    }

    /// Every pair added so far, in order.
    pub open spec fn pairs(&self) -> Seq<(Seq<u8>, Seq<u8>)> {
        concat_pairs(self.sealed_blocks()) + self.current_pairs()
    }

    /// Size of the sealed blocks.
    pub open spec fn sealed_size(&self) -> int {
        concat_blocks(self.sealed_blocks()).len() as int
    }

    pub closed spec fn target_size(&self) -> nat {
        self.block_size as nat
    }

    /// Estimated encoded size of the block being filled.
    pub closed spec fn current_size(&self) -> int {
        self.builder.size_spec()
    }

    /// The current block refuses the pair: it is non-empty and the pair
    /// would take it past the target size.
    pub open spec fn block_full_for(&self, key: Seq<u8>, value: Seq<u8>) -> bool {
        self.current_pairs().len() > 0 && self.current_size() + key.len() + value.len() + 6
            > self.target_size()
    }

    pub closed spec fn wf(&self) -> bool {
        &&& self.sealing_wf()
        &&& (self.blocks@.len() > 0 ==> self.builder.pairs().len() > 0)
    }

    /// The invariant, but for a block that has just been sealed.
    closed spec fn sealing_wf(&self) -> bool {
        let bs = self.blocks@;
        let cur = self.builder.pairs();
        &&& self.builder.wf()
        &&& self.builder.target_size() == self.block_size
        &&& forall|i: int|
            0 <= i < bs.len() ==> (#[trigger] bs[i]).len() >= 1 && pairs_fit(bs[i])
        &&& self.data@ == concat_blocks(bs)
        &&& self.data@.len() <= SST_DATA_LIMIT + 10 + 2 * MAX_U16
        &&& self.meta@.len() == bs.len()
        &&& metas_view(self.meta@) == metas_of(bs)
        &&& forall|i: int| 0 <= i < bs.len() ==> (#[trigger] metas_of(bs)[i]).0 <= self.data@.len()
        &&& self.first_key@ == (if cur.len() > 0 { cur[0].0 } else { Seq::empty() })
        &&& self.last_key@ == (if cur.len() > 0 { cur.last().0 } else { Seq::empty() })
    }

    /// Create a builder for blocks of about `block_size` bytes.
    pub fn new(block_size: usize) -> (r: Self)
        requires
            block_size <= MAX_U16,
        ensures
            r.wf(),
            r.pairs() == Seq::<(Seq<u8>, Seq<u8>)>::empty(),
            r.sealed_blocks() == Seq::<Seq<(Seq<u8>, Seq<u8>)>>::empty(),
            r.current_pairs() == Seq::<(Seq<u8>, Seq<u8>)>::empty(),
            r.target_size() == block_size,
    {
        let r = SsTableBuilder {
            builder: BlockBuilder::new(block_size),
            first_key: Vec::new(),
            last_key: Vec::new(),
            data: Vec::new(),
            meta: Vec::new(),
            block_size,
            blocks: Ghost(Seq::empty()),
        };
        assert(r.pairs() =~= Seq::<(Seq<u8>, Seq<u8>)>::empty());
        assert(metas_view(r.meta@) =~= metas_of(r.blocks@));
        r
    }

    /// Size of the blocks sealed so far; the meta section is not counted.
    pub fn estimated_size(&self) -> (r: usize)
        requires
            self.wf(),
        ensures
            r == self.sealed_size(),
    {
        self.data.len()
    }

    /// Whether no pair has been added yet.
    pub fn is_empty(&self) -> (r: bool)
        requires
            self.wf(),
        ensures
            r == (self.pairs().len() == 0),
    {
        proof {
            if self.blocks@.len() > 0 {
                assert(self.pairs().len() >= self.builder.pairs().len());
            } else {
                assert(concat_pairs(self.blocks@) =~= Seq::<(Seq<u8>, Seq<u8>)>::empty());
            }
        }
        self.builder.is_empty()
    }

    /// Adds a key-value pair. When the current block refuses it, the block is
    /// sealed and the pair starts a new one.
    pub fn add(&mut self, key: &[u8], value: &[u8])
        requires
            old(self).wf(),
            1 <= key@.len() <= MAX_U16,
            value@.len() <= MAX_U16,
            old(self).sealed_size() <= SST_DATA_LIMIT,
        ensures
            final(self).wf(),
            final(self).target_size() == old(self).target_size(),
            final(self).pairs() == old(self).pairs().push((key@, value@)),
            final(self).current_pairs().len() >= 1,
            blocks_nonempty(final(self).sealed_blocks()),
            old(self).block_full_for(key@, value@) ==> final(self).sealed_blocks() == old(
                self,
            ).sealed_blocks().push(old(self).current_pairs()) && final(self).current_pairs()
                == seq![(key@, value@)],
            !old(self).block_full_for(key@, value@) ==> final(self).sealed_blocks() == old(
                self,
            ).sealed_blocks() && final(self).current_pairs() == old(self).current_pairs().push(
                (key@, value@),
            ),
    {
        let ghost cur = self.builder.pairs();
        proof {
            self.builder.lemma_wf();
            if cur.len() > 0 {
                assert(cur[0].0.len() >= 1);
            }
        }
        let empty_before = self.first_key.len() == 0;
        if self.builder.add(key, value) {
            if empty_before {
                self.first_key = vstd::slice::slice_to_vec(key);
            }
            self.last_key = vstd::slice::slice_to_vec(key);
            proof {
                assert(self.pairs() =~= old(self).pairs().push((key@, value@)));
            }
            return;
        }
        self.complete_current_block();
        let accepted = self.builder.add(key, value);
        assert(accepted);
        self.first_key = vstd::slice::slice_to_vec(key);
        self.last_key = vstd::slice::slice_to_vec(key);
        proof {
            let bs = self.blocks@;
            assert(bs.drop_last() == old(self).sealed_blocks());
            assert(concat_pairs(bs) == concat_pairs(old(self).sealed_blocks()) + cur);
            assert(self.pairs() =~= old(self).pairs().push((key@, value@)));
        }
    }

    /// Seals the current block: encodes it, appends it to the data, and
    /// records its meta.
    #[verifier::rlimit(100)]
    fn complete_current_block(&mut self)
        requires
            old(self).wf(),
            old(self).current_pairs().len() >= 1,
            old(self).sealed_size() <= SST_DATA_LIMIT,
        ensures
            final(self).sealing_wf(),
            final(self).target_size() == old(self).target_size(),
            final(self).sealed_blocks() == old(self).sealed_blocks().push(
                old(self).current_pairs(),
            ),
            final(self).current_pairs().len() == 0,
    {
        proof {
            self.builder.lemma_wf();
        }
        let mut builder = BlockBuilder::new(self.block_size);
        core::mem::swap(&mut self.builder, &mut builder);
        let ghost es = builder.pairs();
        let ghost bs = self.blocks@;
        proof {
            builder.lemma_wf();
        }
        let mut encoded = builder.build_encoded();
        let mut first_key: Vec<u8> = Vec::new();
        let mut last_key: Vec<u8> = Vec::new();
        core::mem::swap(&mut self.first_key, &mut first_key);
        core::mem::swap(&mut self.last_key, &mut last_key);
        let ghost old_meta = self.meta@;
        let ghost old_len = self.data@.len();
        self.meta.push(BlockMeta { offset: self.data.len(), first_key, last_key });
        self.data.append(&mut encoded);
        self.blocks = Ghost(bs.push(es));
        proof {
            let nbs = bs.push(es);
            lemma_seal(bs, es);
            assert(metas_view(self.meta@) =~= metas_view(old_meta).push(
                (old_len as int, es[0].0, es.last().0),
            ));
            assert forall|i: int| 0 <= i < nbs.len() implies (#[trigger] nbs[i]).len() >= 1
                && pairs_fit(nbs[i]) by {
                if i < bs.len() {
                    assert(nbs[i] == bs[i]);
                }
            }
            assert forall|i: int| 0 <= i < nbs.len() implies (#[trigger] metas_of(nbs)[i]).0
                <= self.data@.len() by {
                if i < bs.len() {
                    assert(metas_of(nbs)[i] == metas_of(bs)[i]);
                }
            }
        }
    }

    /// Seals the last block and lays out the table:
    /// `blocks | meta section | meta offset as u32`.
    pub fn build<C>(self, id: usize, block_cache: Option<std::sync::Arc<C>>) -> (r: SsTable<C>)
        requires
            self.wf(),
            self.pairs().len() > 0,
            self.sealed_size() <= SST_DATA_LIMIT,
        ensures
            ({
                let bs = self.sealed_blocks().push(self.current_pairs());
                let metas = Seq::new(bs.len(), |i: int| meta_of(bs, i));
                &&& concat_pairs(bs) == self.pairs()
                &&& r.id == id
                &&& r.block_cache == block_cache
                &&& r.block_meta_offset == concat_blocks(bs).len()
                &&& metas_view(r.block_meta@) == metas
                &&& r.file@ == concat_blocks(bs) + meta_encoding(metas) + le_u32(
                    r.block_meta_offset as int,
                )
                &&& blocks_nonempty(bs)
                &&& r.block_meta_offset <= MAX_U32
                &&& r.block_meta@.len() == bs.len()
                &&& r.block_meta@[0].offset == 0
                &&& r.block_meta@[0].first_key@ == self.pairs()[0].0
                &&& r.block_meta@[bs.len() - 1].last_key@ == self.pairs().last().0
                &&& r.first_key@ == self.pairs()[0].0
                &&& r.last_key@ == self.pairs().last().0
            }),
    {
        let ghost sealed = self.blocks@;
        let ghost bs = self.blocks@.push(self.builder.pairs());
        proof {
            if self.blocks@.len() == 0 {
                assert(self.pairs() =~= self.builder.pairs());
            }
        }
        let mut this = self;
        this.complete_current_block();
        let mut buf: Vec<u8> = Vec::new();
        core::mem::swap(&mut this.data, &mut buf);
        let meta_offset = buf.len();
        proof {
            assert forall|i: int| 0 <= i < this.meta@.len() implies meta_fits(
                #[trigger] this.meta@[i]@,
            ) by {
                reveal(meta_of);
                assert(metas_view(this.meta@)[i] == this.meta@[i]@);
                assert(metas_of(bs)[i] == meta_of(bs, i));
                assert(bs[i].len() >= 1 && pairs_fit(bs[i]));
                assert(bs[i].last() == bs[i][bs[i].len() - 1]);
            }
        }
        BlockMeta::encode_block_meta(&this.meta, &mut buf);
        put_u32(&mut buf, meta_offset as u32);
        let n = this.meta.len();
        let first_key = vstd::slice::slice_to_vec(this.meta[0].first_key.as_slice());
        let last_key = vstd::slice::slice_to_vec(this.meta[n - 1].last_key.as_slice());
        proof {
            reveal(meta_of);
            let metas = Seq::new(bs.len(), |i: int| meta_of(bs, i));
            assert(metas_view(this.meta@) =~= metas);
            assert(this.meta@[0]@ == metas[0]);
            assert(this.meta@[n - 1]@ == metas[n - 1]);
            lemma_concat_pairs_first(bs);
            assert(bs.drop_last() =~= sealed);
        }
        SsTable {
            id,
            file: buf,
            first_key,
            last_key,
            block_meta: this.meta,
            block_meta_offset: meta_offset,
            block_cache,
        }
    }
}

/// The first pair of a list of non-empty blocks is the first pair of its
/// first block; the last is the last of its last block.
proof fn lemma_concat_pairs_first(bs: Seq<Seq<(Seq<u8>, Seq<u8>)>>)
    requires
        bs.len() >= 1,
        forall|i: int| 0 <= i < bs.len() ==> (#[trigger] bs[i]).len() >= 1,
    ensures
        concat_pairs(bs).len() >= 1,
        concat_pairs(bs)[0] == bs[0][0],
        concat_pairs(bs).last() == bs.last().last(),
    decreases bs.len(),
{
    let dl = bs.drop_last();
    if dl.len() > 0 {
        assert forall|i: int| 0 <= i < dl.len() implies (#[trigger] dl[i]).len() >= 1 by {
            assert(dl[i] == bs[i]);
        }
        lemma_concat_pairs_first(dl);
    } else {
        assert(concat_pairs(dl) =~= Seq::<(Seq<u8>, Seq<u8>)>::empty());
    }
}

/// The last four bytes of a table give the offset of its meta section, and
/// the meta section runs from there up to those four bytes.
pub proof fn lemma_sst_layout(blocks: Seq<u8>, metas: Seq<(int, Seq<u8>, Seq<u8>)>)
    requires
        blocks.len() <= MAX_U32,
    ensures
        ({
            let f = blocks + meta_encoding(metas) + le_u32(blocks.len() as int);
            &&& u32_at(f, f.len() - 4) == blocks.len()
            &&& u32_at(f, f.len() - 4) + meta_encoding(metas).len() + 4 == f.len()
            &&& f.subrange(u32_at(f, f.len() - 4), f.len() - 4) == meta_encoding(metas)
        }),
{
    let f = blocks + meta_encoding(metas) + le_u32(blocks.len() as int);
    let x = blocks.len() as int;
    let p = f.len() - 4;
    assert(f[p] == le_u32(x)[0]);
    assert(f[p + 1] == le_u32(x)[1]);
    assert(f[p + 2] == le_u32(x)[2]);
    assert(f[p + 3] == le_u32(x)[3]);
    assert(u32_at(f, p) == x);
    assert(f.subrange(x, p) =~= meta_encoding(metas));
}

} // verus!
