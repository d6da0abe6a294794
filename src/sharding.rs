//! The byte layout of a shard: the encoded inner chunks one after another, and
//! an index of `(offset, length)` pairs, itself encoded by its own codec chain,
//! at the start or the end of the shard.
use vstd::prelude::*;
use crate::codec::{
    chain_decode_spec, chain_encode_spec, copy_range, append_bytes, lemma_chain_round_trip,
    valid_elements, CodecChain, CodecError, CodecOptions, DataType,
};

verus! {

/// The index entry of an inner chunk that is not stored: it reads as fill value.
pub const OFFSET_UNSET: u64 = 0xffff_ffff_ffff_ffff;

/// Where a shard's index is stored.
#[derive(Clone, Copy, Debug, PartialEq, Eq, Structural)]
pub enum ShardingIndexLocation {
    Start,
    End,
}

/// The encoding of a shard's index.
#[derive(Clone, Copy, Debug, PartialEq, Eq, Structural)]
pub struct ShardIndexCodec {
    /// The chain the index table (as `u64` elements) is encoded with.
    pub index_chain: CodecChain,
    pub location: ShardingIndexLocation,
}

pub open spec fn opt_bytes(c: Option<Vec<u8>>) -> Option<Seq<u8>> {
    match c {
        Some(v) => Some(v@),
        None => None,
    }
}

/// The encoded inner chunks held by a vector, `None` for a chunk not stored.
pub open spec fn chunks_view(chunks: Seq<Option<Vec<u8>>>) -> Seq<Option<Seq<u8>>> {
    Seq::new(chunks.len(), |i: int| opt_bytes(chunks[i]))
}

/// The total byte count of the stored inner chunks.
pub open spec fn total_len(chunks: Seq<Option<Seq<u8>>>) -> nat
    decreases chunks.len(),
{
    if chunks.len() == 0 {
        0
    } else {
        total_len(chunks.drop_last()) + match chunks.last() {
            Some(b) => b.len(),
            None => 0,
        }
    }
}

/// The concatenated inner chunks and the index table, for chunk data that
/// starts at byte `base` of the shard. The table holds an `(offset, length)`
/// pair per inner chunk, or `(OFFSET_UNSET, OFFSET_UNSET)` for one not stored.
pub open spec fn layout(chunks: Seq<Option<Seq<u8>>>, base: nat) -> (Seq<u8>, Seq<u64>)
    decreases chunks.len(),
{
    if chunks.len() == 0 {
        (Seq::empty(), Seq::empty())
    } else {
        let (data, idx) = layout(chunks.drop_last(), base);
        match chunks.last() {
            None => (data, idx.push(OFFSET_UNSET).push(OFFSET_UNSET)),
            Some(b) => (data + b, idx.push((base + data.len()) as u64).push(b.len() as u64)),
        }
    }
}

/// The byte count of an encoded index for `n` inner chunks.
pub open spec fn index_encoded_len(n: nat, chain: CodecChain) -> nat {
    16 * n + if chain.checksum {
        4nat
    } else {
        0nat
    }
}

/// The bytes of a shard holding `chunks`.
pub open spec fn encode_shard_spec(chunks: Seq<Option<Seq<u8>>>, codec: ShardIndexCodec) -> Seq<u8> {
    let isz = index_encoded_len(chunks.len(), codec.index_chain);
    match codec.location {
        ShardingIndexLocation::Start => {
            let (data, idx) = layout(chunks, isz);
            chain_encode_spec(idx, DataType::UInt64, codec.index_chain) + data
        },
        ShardingIndexLocation::End => {
            let (data, idx) = layout(chunks, 0);
            data + chain_encode_spec(idx, DataType::UInt64, codec.index_chain)
        },
    }
}

/// The index table of a shard of `n` inner chunks.
pub open spec fn decode_index_spec(
    shard: Seq<u8>,
    n: nat,
    codec: ShardIndexCodec,
    validate: bool,
) -> Result<Seq<u64>, CodecError> {
    let isz = index_encoded_len(n, codec.index_chain);
    if shard.len() < isz {
        Err(CodecError::InvalidShardIndex)
    } else {
        let ib = match codec.location {
            ShardingIndexLocation::Start => shard.subrange(0, isz as int),
            ShardingIndexLocation::End => shard.subrange(shard.len() - isz, shard.len() as int),
        };
        chain_decode_spec(ib, 2 * n, DataType::UInt64, codec.index_chain, validate)
    }
}

/// The stored bytes of inner chunk `i` per the index table, `None` where it is
/// not stored.
pub open spec fn inner_bytes_spec(shard: Seq<u8>, idx: Seq<u64>, i: int) -> Result<
    Option<Seq<u8>>,
    CodecError,
> {
    let o = idx[2 * i];
    let l = idx[2 * i + 1];
    if o == OFFSET_UNSET && l == OFFSET_UNSET {
        Ok(None)
    } else if o + l > shard.len() {
        Err(CodecError::InvalidShardIndex)
    } else {
        Ok(Some(shard.subrange(o as int, o + l)))
    }
}

/// What the layout holds: the table has two entries per chunk, and each chunk
/// is either marked unset or found at its recorded offset and length.
pub proof fn lemma_layout(chunks: Seq<Option<Seq<u8>>>, base: nat)
    requires
        base + total_len(chunks) < u64::MAX,
    ensures
        layout(chunks, base).0.len() == total_len(chunks),
        layout(chunks, base).1.len() == 2 * chunks.len(),
        forall|i: int|
            0 <= i < chunks.len() ==> {
                let (data, idx) = layout(chunks, base);
                match #[trigger] chunks[i] {
                    None => idx[2 * i] == OFFSET_UNSET && idx[2 * i + 1] == OFFSET_UNSET,
                    Some(b) => base <= idx[2 * i] && idx[2 * i] < OFFSET_UNSET && idx[2 * i + 1]
                        == b.len() && idx[2 * i] - base + b.len() <= data.len() && data.subrange(
                        idx[2 * i] - base,
                        idx[2 * i] - base + b.len(),
                    ) == b,
                }
            },
    decreases chunks.len(),
{
    if chunks.len() > 0 {
        let prefix = chunks.drop_last();
        lemma_layout(prefix, base);
        let (data_p, idx_p) = layout(prefix, base);
        let (data, idx) = layout(chunks, base);
        let n = chunks.len() as int;
        assert forall|i: int| 0 <= i < n implies {
            match #[trigger] chunks[i] {
                None => idx[2 * i] == OFFSET_UNSET && idx[2 * i + 1] == OFFSET_UNSET,
                Some(b) => base <= idx[2 * i] && idx[2 * i] < OFFSET_UNSET && idx[2 * i + 1]
                    == b.len() && idx[2 * i] - base + b.len() <= data.len() && data.subrange(
                    idx[2 * i] - base,
                    idx[2 * i] - base + b.len(),
                ) == b,
            }
        } by {
            if i < n - 1 {
                assert(prefix[i] == chunks[i]);
                assert(idx[2 * i] == idx_p[2 * i]);
                assert(idx[2 * i + 1] == idx_p[2 * i + 1]);
                match chunks[i] {
                    None => {},
                    Some(b) => {
                        let o = idx_p[2 * i] - base;
                        assert(data.subrange(o, o + b.len()) =~= data_p.subrange(o, o + b.len()));
                    },
                }
            } else {
                match chunks[i] {
                    None => {},
                    Some(b) => {
                        assert(data.subrange(data_p.len() as int, (data_p.len() + b.len()) as int) =~= b);
                    },
                }
            }
        }
    }
}

/// Each inner chunk read back from an encoded shard, through its index, is the
/// chunk that was stored, or `None` for one not stored; with or without
/// checksum validation.
pub proof fn lemma_shard_round_trip(
    chunks: Seq<Option<Seq<u8>>>,
    codec: ShardIndexCodec,
    validate: bool,
    i: int,
)
    requires
        index_encoded_len(chunks.len(), codec.index_chain) + total_len(chunks) < u64::MAX,
        0 <= i < chunks.len(),
    ensures
        ({
            let shard = encode_shard_spec(chunks, codec);
            let idx = decode_index_spec(shard, chunks.len(), codec, validate);
            idx.is_ok() && idx.unwrap().len() == 2 * chunks.len() && inner_bytes_spec(
                shard,
                idx.unwrap(),
                i,
            ) == Ok::<Option<Seq<u8>>, CodecError>(chunks[i])
        }),
{
    let n = chunks.len();
    let isz = index_encoded_len(n, codec.index_chain);
    let base: nat = match codec.location {
        ShardingIndexLocation::Start => isz,
        ShardingIndexLocation::End => 0,
    };
    lemma_layout(chunks, base);
    let (data, idx) = layout(chunks, base);
    assert(valid_elements(idx, DataType::UInt64));
    lemma_chain_round_trip(idx, DataType::UInt64, codec.index_chain, validate);
    let enc_idx = chain_encode_spec(idx, DataType::UInt64, codec.index_chain);
    assert(enc_idx.len() == isz) by {
        crate::codec::lemma_elements_round_trip(idx, DataType::UInt64, codec.index_chain.endian);
        assert(idx.len() * 8 == 16 * n);
    }
    let shard = encode_shard_spec(chunks, codec);
    match codec.location {
        ShardingIndexLocation::Start => {
            assert(shard == enc_idx + data);
            assert(shard.subrange(0, isz as int) =~= enc_idx);
        },
        ShardingIndexLocation::End => {
            assert(shard == data + enc_idx);
            assert(shard.subrange(shard.len() - isz, shard.len() as int) =~= enc_idx);
        },
    }
    let d = decode_index_spec(shard, n, codec, validate);
    assert(d == Ok::<Seq<u64>, CodecError>(idx));
    match chunks[i] {
        None => {},
        Some(b) => {
            let o = idx[2 * i] as int;
            match codec.location {
                ShardingIndexLocation::Start => {
                    assert(shard.subrange(o, o + b.len()) =~= data.subrange(
                        o - isz,
                        o - isz + b.len(),
                    ));
                },
                ShardingIndexLocation::End => {
                    assert(shard.subrange(o, o + b.len()) =~= data.subrange(o, o + b.len()));
                },
            }
        },
    }
}

/// Assembles a shard from its encoded inner chunks (`None` for a chunk not
/// stored).
pub fn encode_shard(chunks: &Vec<Option<Vec<u8>>>, codec: ShardIndexCodec) -> (r: Vec<u8>)
    requires
        index_encoded_len(chunks@.len(), codec.index_chain) + total_len(chunks_view(chunks@))
            < u64::MAX,
    ensures
        r@ == encode_shard_spec(chunks_view(chunks@), codec),
{
    let ghost all = chunks_view(chunks@);
    let n = chunks.len();
    let isz: u64 = if codec.index_chain.checksum {
        16 * (n as u64) + 4
    } else {
        16 * (n as u64)
    };
    let base: u64 = match codec.location {
        ShardingIndexLocation::Start => isz,
        ShardingIndexLocation::End => 0,
    };
    let mut data: Vec<u8> = Vec::new();
    let mut idx: Vec<u64> = Vec::new();
    let mut i: usize = 0;
    proof {
        lemma_total_len_prefix(all, 0);
    }
    while i < n
        invariant
            n == chunks@.len(),
            all == chunks_view(chunks@),
            i <= n,
            base + total_len(all) < u64::MAX,
            (data@, idx@) == layout(all.take(i as int), base as nat),
            data@.len() == total_len(all.take(i as int)),
            total_len(all.take(i as int)) <= total_len(all),
        decreases n - i,
    {
        proof {
            assert(all.take(i as int + 1).drop_last() =~= all.take(i as int));
            assert(all.take(i as int + 1).last() == all[i as int]);
            lemma_total_len_prefix(all, i as int + 1);
        }
        match &chunks[i] {
            None => {
                idx.push(OFFSET_UNSET);
                idx.push(OFFSET_UNSET);
            },
            Some(b) => {
                let off = base + data.len() as u64;
                idx.push(off);
                idx.push(b.len() as u64);
                append_bytes(&mut data, b);
            },
        }
        i = i + 1;
    }
    proof {
        assert(all.take(n as int) =~= all);
    }
    let index_bytes = codec.index_chain.encode(&idx, DataType::UInt64);
    let mut out: Vec<u8> = Vec::new();
    match codec.location {
        ShardingIndexLocation::Start => {
            append_bytes(&mut out, &index_bytes);
            append_bytes(&mut out, &data);
        },
        ShardingIndexLocation::End => {
            append_bytes(&mut out, &data);
            append_bytes(&mut out, &index_bytes);
        },
    }
    out
}

/// The stored bytes of a prefix of the chunks are at most those of all.
pub proof fn lemma_total_len_prefix(chunks: Seq<Option<Seq<u8>>>, i: int)
    requires
        0 <= i <= chunks.len(),
    ensures
        total_len(chunks.take(i)) <= total_len(chunks),
    decreases chunks.len() - i,
{
    if i < chunks.len() {
        lemma_total_len_prefix(chunks, i + 1);
        assert(chunks.take(i + 1).drop_last() =~= chunks.take(i));
    } else {
        assert(chunks.take(i) =~= chunks);
    }
}

/// Reads and decodes the index table of a shard of `n` inner chunks.
pub fn decode_shard_index(
    shard: &Vec<u8>,
    n: u64,
    codec: ShardIndexCodec,
    options: &CodecOptions,
) -> (r: Result<Vec<u64>, CodecError>)
    requires
        16 * n + 4 <= u64::MAX,
    ensures
        match r {
            Ok(v) => decode_index_spec(shard@, n as nat, codec, options.validate_checksums) == Ok::<
                Seq<u64>,
                CodecError,
            >(v@) && v@.len() == 2 * n,
            Err(e) => decode_index_spec(shard@, n as nat, codec, options.validate_checksums)
                == Err::<Seq<u64>, CodecError>(e),
        },
{
    let isz: u64 = if codec.index_chain.checksum {
        16 * n + 4
    } else {
        16 * n
    };
    let len = shard.len();
    if (len as u64) < isz {
        return Err(CodecError::InvalidShardIndex);
    }
    let isz = isz as usize;
    let ib = match codec.location {
        ShardingIndexLocation::Start => copy_range(shard, 0, isz),
        ShardingIndexLocation::End => copy_range(shard, len - isz, len),
    };
    let r = codec.index_chain.decode(&ib, 2 * n, DataType::UInt64, options);
    proof {
        if r.is_ok() {
            {
                crate::codec::lemma_chain_decode_len(
                    ib@,
                    2 * n as nat,
                    DataType::UInt64,
                    codec.index_chain,
                    options.validate_checksums,
                );
            }
        }
    }
    r
}

/// The stored bytes of inner chunk `i` per a decoded index table, `None` where
/// it is not stored; fails where the entry points outside the shard.
pub fn inner_chunk_bytes(shard: &Vec<u8>, idx: &Vec<u64>, i: usize) -> (r: Result<
    Option<Vec<u8>>,
    CodecError,
>)
    requires
        2 * i + 1 < idx@.len(),
    ensures
        match r {
            Ok(c) => inner_bytes_spec(shard@, idx@, i as int) == Ok::<Option<Seq<u8>>, CodecError>(
                opt_bytes(c),
            ),
            Err(e) => inner_bytes_spec(shard@, idx@, i as int) == Err::<
                Option<Seq<u8>>,
                CodecError,
            >(e),
        },
{
    let ilen = idx.len();
    assert(2 * i + 1 < ilen);
    let o = idx[2 * i];
    let l = idx[2 * i + 1];
    if o == OFFSET_UNSET && l == OFFSET_UNSET {
        return Ok(None);
    }
    let len = shard.len() as u64;
    if o > len || l > len - o {
        return Err(CodecError::InvalidShardIndex);
    }
    Ok(Some(copy_range(shard, o as usize, (o + l) as usize)))
}

} // verus!
