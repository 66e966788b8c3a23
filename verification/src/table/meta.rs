//! The index of a table: for each block its offset and its first and last
//! key, and how the index is written and read.

use crate::error::StorageError;
use crate::key::valid_key;
use crate::wire::{
    be16_at, be16_bytes, be32_at, be32_bytes, copy_range, lemma_be16_at_bytes,
    lemma_be16_round_trip, lemma_be32_at_bytes, lemma_be32_round_trip, put_slice, put_u16, put_u32,
    read_u16, read_u32,
};
use vstd::prelude::*;

verus! {

/// What the index says of one block, as plain values.
pub struct MetaView {
    /// Where the block starts in the file.
    pub offset: int,
    /// The key of the block's first entry.
    pub first_key: Seq<u8>,
    /// The key of the block's last entry.
    pub last_key: Seq<u8>,
}

/// What the index says of one block.
#[derive(Clone, Debug, PartialEq, Eq)]
pub struct BlockMeta {
    /// Offset of this data block.
    pub offset: usize,
    /// The first key of the data block.
    pub first_key: Vec<u8>,
    /// The last key of the data block.
    pub last_key: Vec<u8>,
}

impl View for BlockMeta {
    type V = MetaView;

    open spec fn view(&self) -> MetaView {
        MetaView { offset: self.offset as int, first_key: self.first_key@, last_key: self.last_key@ }
    }
}

/// The plain values of a list of index entries.
pub open spec fn meta_views(metas: Seq<BlockMeta>) -> Seq<MetaView> {
    Seq::new(metas.len(), |i: int| metas[i]@)
}

/// An index entry that the format can hold: an offset of 32 bits and two keys.
pub open spec fn meta_valid(m: MetaView) -> bool {
    &&& 0 <= m.offset < 4294967296
    &&& valid_key(m.first_key)
    &&& valid_key(m.last_key)
}

/// Every entry of the index can be held by the format.
pub open spec fn metas_valid(metas: Seq<MetaView>) -> bool {
    forall|i: int| 0 <= i < metas.len() ==> meta_valid(#[trigger] metas[i])
}

/// One index entry as it is written: the offset in four bytes, then each key
/// behind its length in two bytes.
pub open spec fn meta_encoding(m: MetaView) -> Seq<u8> {
    be32_bytes(m.offset) + be16_bytes(m.first_key.len() as int) + m.first_key + be16_bytes(
        m.last_key.len() as int,
    ) + m.last_key
}

/// The index as it is written: its entries one behind the other.
pub open spec fn metas_encoding(metas: Seq<MetaView>) -> Seq<u8>
    decreases metas.len(),
{
    if metas.len() == 0 {
        Seq::empty()
    } else {
        meta_encoding(metas[0]) + metas_encoding(metas.subrange(1, metas.len() as int))
    }
}

/// Number of bytes that the index takes when written: eight for each entry,
/// and its two keys.
pub open spec fn metas_size(metas: Seq<MetaView>) -> int
    decreases metas.len(),
{
    if metas.len() == 0 {
        0
    } else {
        8 + metas[0].first_key.len() + metas[0].last_key.len() + metas_size(
            metas.subrange(1, metas.len() as int),
        )
    }
}

/// The written index is as long as `metas_size` says.
pub proof fn lemma_metas_encoding_len(metas: Seq<MetaView>)
    ensures
        metas_encoding(metas).len() == metas_size(metas),
    decreases metas.len(),
{
    if metas.len() > 0 {
        lemma_metas_encoding_len(metas.subrange(1, metas.len() as int));
    }
}

/// Length of the first key of the index entry that starts at `at`.
pub open spec fn meta_first_len(buf: Seq<u8>, at: int) -> int {
    be16_at(buf, at + 4)
}

/// Length of the last key of the index entry that starts at `at`.
pub open spec fn meta_last_len(buf: Seq<u8>, at: int) -> int {
    be16_at(buf, at + 6 + meta_first_len(buf, at))
}

/// Number of bytes that the index entry at `at` takes.
pub open spec fn meta_size(buf: Seq<u8>, at: int) -> int {
    8 + meta_first_len(buf, at) + meta_last_len(buf, at)
}

/// The bytes from `at` on begin with one whole index entry with two keys.
pub open spec fn meta_fits(buf: Seq<u8>, at: int) -> bool {
    &&& 0 <= at
    &&& at + 6 <= buf.len()
    &&& meta_first_len(buf, at) >= 1
    &&& at + 8 + meta_first_len(buf, at) <= buf.len()
    &&& meta_last_len(buf, at) >= 1
    &&& at + meta_size(buf, at) <= buf.len()
}

/// The index entry that starts at `at`.
pub open spec fn meta_at(buf: Seq<u8>, at: int) -> MetaView {
    MetaView {
        offset: be32_at(buf, at),
        first_key: buf.subrange(at + 6, at + 6 + meta_first_len(buf, at)),
        last_key: buf.subrange(
            at + 8 + meta_first_len(buf, at),
            at + 8 + meta_first_len(buf, at) + meta_last_len(buf, at),
        ),
    }
}

/// The index entries that the bytes from `at` on spell, if they are whole
/// entries one behind the other up to the end of `buf`.
pub open spec fn parse_metas(buf: Seq<u8>, at: int) -> Option<Seq<MetaView>>
    decreases buf.len() - at,
{
    if at >= buf.len() {
        Some(Seq::empty())
    } else if !meta_fits(buf, at) {
        None
    } else {
        match parse_metas(buf, at + meta_size(buf, at)) {
            Some(rest) => Some(seq![meta_at(buf, at)] + rest),
            None => None,
        }
    }
}

/// Reading an index entry back from its bytes gives the entry.
#[verifier::spinoff_prover]
#[verifier::rlimit(50)]
proof fn lemma_meta_read_back(m: MetaView, rest: Seq<u8>)
    requires
        meta_valid(m),
    ensures
        meta_fits(meta_encoding(m) + rest, 0),
        meta_size(meta_encoding(m) + rest, 0) == meta_encoding(m).len(),
        meta_at(meta_encoding(m) + rest, 0) == m,
{
    let e = meta_encoding(m);
    let buf = e + rest;
    let f = m.first_key.len() as int;
    let l = m.last_key.len() as int;
    lemma_be32_round_trip(m.offset);
    lemma_be16_round_trip(f);
    lemma_be16_round_trip(l);
    assert(e.len() == 8 + f + l);
    assert(forall|j: int| 0 <= j < e.len() ==> #[trigger] buf[j] == e[j]);
    assert(e[0] == be32_bytes(m.offset)[0] && e[1] == be32_bytes(m.offset)[1] && e[2] == be32_bytes(
        m.offset,
    )[2] && e[3] == be32_bytes(m.offset)[3]);
    assert(buf[0] == e[0] && buf[1] == e[1] && buf[2] == e[2] && buf[3] == e[3]);
    assert(be32_at(buf, 0) == m.offset);
    assert(e[4] == be16_bytes(f)[0] && e[5] == be16_bytes(f)[1]);
    assert(buf[4] == e[4] && buf[5] == e[5]);
    assert(meta_first_len(buf, 0) == f);
    assert(e[6 + f] == be16_bytes(l)[0] && e[6 + f + 1] == be16_bytes(l)[1]);
    assert(buf[6 + f] == e[6 + f] && buf[6 + f + 1] == e[6 + f + 1]);
    assert(meta_last_len(buf, 0) == l);
    assert(buf.subrange(6, 6 + f) =~= m.first_key) by {
        assert forall|j: int| 6 <= j < 6 + f implies #[trigger] buf[j] == m.first_key[j - 6] by {
            assert(buf[j] == e[j]);
        }
    }
    assert(buf.subrange(8 + f, 8 + f + l) =~= m.last_key) by {
        assert forall|j: int| 8 + f <= j < 8 + f + l implies #[trigger] buf[j] == m.last_key[j - 8 - f] by {
            assert(buf[j] == e[j]);
        }
    }
}

/// Parsing does not look at what lies before `at`.
#[verifier::spinoff_prover]
#[verifier::rlimit(50)]
proof fn lemma_parse_shift(front: Seq<u8>, buf: Seq<u8>, at: int)
    requires
        0 <= at,
    ensures
        parse_metas(front + buf, front.len() + at) == parse_metas(buf, at),
    decreases buf.len() - at,
{
    let whole = front + buf;
    let p = front.len() as int + at;
    if at < buf.len() {
        assert(forall|j: int| 0 <= j < buf.len() ==> #[trigger] buf[j] == whole[front.len() + j]);
        if at + 6 <= buf.len() {
            assert(whole[p + 4] == buf[at + 4] && whole[p + 5] == buf[at + 5]);
            assert(meta_first_len(whole, p) == meta_first_len(buf, at));
            lemma_be16_at_bytes(buf, at + 4);
            let f = meta_first_len(buf, at);
            if at + 8 + f <= buf.len() {
                assert(whole[p + 6 + f] == buf[at + 6 + f] && whole[p + 6 + f + 1] == buf[at + 6 + f + 1]);
                assert(meta_last_len(whole, p) == meta_last_len(buf, at));
                lemma_be16_at_bytes(buf, at + 6 + f);
                let l = meta_last_len(buf, at);
                if meta_fits(buf, at) {
                    assert(whole[p] == buf[at] && whole[p + 1] == buf[at + 1] && whole[p + 2] == buf[at
                        + 2] && whole[p + 3] == buf[at + 3]);
                    assert(whole.subrange(p + 6, p + 6 + f) =~= buf.subrange(at + 6, at + 6 + f));
                    assert(whole.subrange(p + 8 + f, p + 8 + f + l) =~= buf.subrange(
                        at + 8 + f,
                        at + 8 + f + l,
                    ));
                    assert(meta_at(whole, p) == meta_at(buf, at));
                    lemma_parse_shift(front, buf, at + meta_size(buf, at));
                }
            }
        }
    }
}

/// Parsing reads one index entry and then the entries behind it.
proof fn lemma_parse_one(buf: Seq<u8>, at: int, rest: Seq<MetaView>)
    requires
        0 <= at < buf.len(),
        meta_fits(buf, at),
        parse_metas(buf, at + meta_size(buf, at)) == Some(rest),
    ensures
        parse_metas(buf, at) == Some(seq![meta_at(buf, at)] + rest),
{
}

/// Parsing the bytes of one index entry and of what parses as `rest` behind
/// it gives that entry and `rest`.
proof fn lemma_parse_prepend(m: MetaView, behind: Seq<u8>, rest: Seq<MetaView>)
    requires
        meta_valid(m),
        parse_metas(behind, 0) == Some(rest),
    ensures
        parse_metas(meta_encoding(m) + behind, 0) == Some(seq![m] + rest),
{
    let head = meta_encoding(m);
    let buf = head + behind;
    lemma_meta_read_back(m, behind);
    lemma_parse_shift(head, behind, 0);
    assert(parse_metas(buf, head.len() as int) == Some(rest));
    assert(0 < buf.len());
    lemma_parse_one(buf, 0, rest);
}

/// Parsing what the encoder wrote gives the index back.
pub proof fn lemma_parse_encoding(metas: Seq<MetaView>)
    requires
        metas_valid(metas),
    ensures
        parse_metas(metas_encoding(metas), 0) == Some(metas),
    decreases metas.len(),
{
    if metas.len() == 0 {
        assert(metas =~= Seq::empty());
    } else {
        let m = metas[0];
        let rest = metas.subrange(1, metas.len() as int);
        assert(meta_valid(m));
        assert forall|i: int| 0 <= i < rest.len() implies meta_valid(#[trigger] rest[i]) by {
            assert(rest[i] == metas[i + 1]);
        }
        lemma_parse_encoding(rest);
        lemma_parse_prepend(m, metas_encoding(rest), rest);
        assert(seq![m] + rest =~= metas);
    }
}

/// Bytes that parse as an index are what the encoder writes for that index,
/// and every entry read from them can be held by the format.
#[verifier::spinoff_prover]
#[verifier::rlimit(50)]
pub proof fn lemma_parse_is_encoding(buf: Seq<u8>, at: int)
    requires
        0 <= at <= buf.len(),
        parse_metas(buf, at) is Some,
    ensures
        metas_encoding(parse_metas(buf, at)->0) == buf.subrange(at, buf.len() as int),
        metas_valid(parse_metas(buf, at)->0),
    decreases buf.len() - at,
{
    if at >= buf.len() {
        assert(buf.subrange(at, buf.len() as int) =~= Seq::empty());
    } else {
        let m = meta_at(buf, at);
        let size = meta_size(buf, at);
        let f = meta_first_len(buf, at);
        lemma_be16_at_bytes(buf, at + 4);
        lemma_be16_at_bytes(buf, at + 6 + f);
        lemma_be32_at_bytes(buf, at);
        lemma_parse_is_encoding(buf, at + size);
        let rest = parse_metas(buf, at + size)->0;
        let all = seq![m] + rest;
        assert(all.subrange(1, all.len() as int) =~= rest);
        assert(meta_encoding(m) =~= buf.subrange(at, at + size)) by {
            assert(buf.subrange(at, at + 4) + buf.subrange(at + 4, at + 6) + m.first_key
                + buf.subrange(at + 6 + f, at + 8 + f) + m.last_key =~= buf.subrange(at, at + size));
        }
        assert(buf.subrange(at, at + size) + buf.subrange(at + size, buf.len() as int)
            =~= buf.subrange(at, buf.len() as int));
        assert forall|i: int| 0 <= i < all.len() implies meta_valid(#[trigger] all[i]) by {
            if i > 0 {
                assert(all[i] == rest[i - 1]);
            }
        }
    }
}

/// Writing one more entry behind the others writes the longer index.
proof fn lemma_metas_encoding_push(metas: Seq<MetaView>, m: MetaView)
    ensures
        metas_encoding(metas.push(m)) == metas_encoding(metas) + meta_encoding(m),
    decreases metas.len(),
{
    let longer = metas.push(m);
    if metas.len() == 0 {
        let none = longer.subrange(1, longer.len() as int);
        assert(none.len() == 0);
        assert(metas_encoding(none) =~= Seq::<u8>::empty());
        assert(longer[0] == m);
        assert(metas_encoding(longer) =~= meta_encoding(m));
        assert(metas_encoding(metas) + meta_encoding(m) =~= meta_encoding(m));
    } else {
        let rest = metas.subrange(1, metas.len() as int);
        assert(longer.subrange(1, longer.len() as int) =~= rest.push(m));
        lemma_metas_encoding_push(rest, m);
        assert(metas_encoding(longer) =~= metas_encoding(metas) + meta_encoding(m));
    }
}

impl BlockMeta {
    /// Writes the index behind what `buf` holds. Offsets and key lengths must
    /// fit the four and two bytes that the format gives them.
    pub fn encode_block_meta(block_meta: &[BlockMeta], buf: &mut Vec<u8>)
        requires
            metas_valid(meta_views(block_meta@)),
        ensures
            final(buf)@ == old(buf)@ + metas_encoding(meta_views(block_meta@)),
    {
        let ghost all = meta_views(block_meta@);
        let mut i: usize = 0;
        assert(all.subrange(0, 0) =~= Seq::<MetaView>::empty());
        assert(buf@ =~= old(buf)@ + metas_encoding(all.subrange(0, 0)));
        while i < block_meta.len()
            invariant
                0 <= i <= block_meta@.len(),
                all == meta_views(block_meta@),
                metas_valid(all),
                buf@ == old(buf)@ + metas_encoding(all.subrange(0, i as int)),
            decreases block_meta@.len() - i,
        {
            let meta: &BlockMeta = &block_meta[i];
            assert(meta_valid(all[i as int]));
            put_u32(buf, meta.offset as u32);
            put_u16(buf, meta.first_key.len() as u16);
            put_slice(buf, meta.first_key.as_slice());
            put_u16(buf, meta.last_key.len() as u16);
            put_slice(buf, meta.last_key.as_slice());
            proof {
                lemma_metas_encoding_push(all.subrange(0, i as int), all[i as int]);
                assert(all.subrange(0, i as int).push(all[i as int]) =~= all.subrange(0, i as int + 1));
                assert(buf@ =~= old(buf)@ + metas_encoding(all.subrange(0, i as int + 1)));
            }
            i = i + 1;
        }
        assert(all.subrange(0, all.len() as int) =~= all);
    }

    /// Reads an index back. Bytes that are not whole index entries with
    /// non-empty keys, one behind the other, are refused as a format error.
    pub fn decode_block_meta(buf: &[u8]) -> (r: Result<Vec<BlockMeta>, StorageError>)
        ensures
            match r {
                Ok(metas) => parse_metas(buf@, 0) == Some(meta_views(metas@)),
                Err(e) => e == StorageError::Format && parse_metas(buf@, 0) is None,
            },
    {
        let mut res: Vec<BlockMeta> = Vec::new();
        let len: usize = buf.len();
        let mut at: usize = 0;
        assert(meta_views(res@) =~= Seq::<MetaView>::empty());
        while at < len
            invariant
                len == buf@.len(),
                0 <= at <= len,
                parse_metas(buf@, 0) == (match parse_metas(buf@, at as int) {
                    Some(rest) => Some(meta_views(res@) + rest),
                    None => None,
                }),
            decreases len - at,
        {
            if len - at < 6 {
                return Err(StorageError::Format);
            }
            let offset: usize = read_u32(buf, at) as usize;
            let first_key_len: usize = read_u16(buf, at + 4) as usize;
            if first_key_len < 1 || len - at - 6 < first_key_len + 2 {
                return Err(StorageError::Format);
            }
            let first_key: Vec<u8> = copy_range(buf, at + 6, at + 6 + first_key_len);
            let last_key_len: usize = read_u16(buf, at + 6 + first_key_len) as usize;
            if last_key_len < 1 || len - at - 8 - first_key_len < last_key_len {
                return Err(StorageError::Format);
            }
            let last_key: Vec<u8> = copy_range(
                buf,
                at + 8 + first_key_len,
                at + 8 + first_key_len + last_key_len,
            );
            let ghost before = meta_views(res@);
            let meta = BlockMeta { offset, first_key, last_key };
            res.push(meta);
            proof {
                assert(meta_fits(buf@, at as int));
                assert(meta@ == meta_at(buf@, at as int));
                assert(meta_views(res@) =~= before.push(meta@));
                match parse_metas(buf@, at as int + meta_size(buf@, at as int)) {
                    Some(rest) => {
                        assert(before + (seq![meta@] + rest) =~= before.push(meta@) + rest);
                    },
                    None => {},
                }
            }
            at = at + 8 + first_key_len + last_key_len;
        }
        proof {
            assert(meta_views(res@) + Seq::<MetaView>::empty() =~= meta_views(res@));
        }
        Ok(res)
    }
}

} // verus!
