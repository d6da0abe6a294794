use zarrs_tools::codec::{CodecChain, CodecError, CodecOptions, Endianness};
use zarrs_tools::sharding::{
    decode_shard_index, encode_shard, inner_chunk_bytes, ShardIndexCodec, ShardingIndexLocation,
    OFFSET_UNSET,
};

#[test]
fn shard_layout_round_trip() {
    let chunks = vec![Some(vec![1u8, 2, 3]), None, Some(vec![9u8])];
    for location in [ShardingIndexLocation::Start, ShardingIndexLocation::End] {
        for checksum in [false, true] {
            let codec = ShardIndexCodec {
                index_chain: CodecChain { endian: Endianness::Little, checksum },
                location,
            };
            let shard = encode_shard(&chunks, codec);
            let opts = CodecOptions { validate_checksums: true };
            let idx = decode_shard_index(&shard, 3, codec, &opts).unwrap();
            assert_eq!(idx.len(), 6);
            assert_eq!(idx[2], OFFSET_UNSET);
            for (i, c) in chunks.iter().enumerate() {
                assert_eq!(&inner_chunk_bytes(&shard, &idx, i).unwrap(), c);
            }
        }
    }
}

#[test]
fn shard_index_at_end_has_expected_offsets() {
    let chunks = vec![Some(vec![1u8, 2]), Some(vec![3u8])];
    let codec = ShardIndexCodec {
        index_chain: CodecChain { endian: Endianness::Little, checksum: false },
        location: ShardingIndexLocation::End,
    };
    let shard = encode_shard(&chunks, codec);
    let mut want = vec![1u8, 2, 3];
    for v in [0u64, 2, 2, 1] {
        want.extend_from_slice(&v.to_le_bytes());
    }
    assert_eq!(shard, want);
}

#[test]
fn corrupt_shard_index() {
    let codec = ShardIndexCodec {
        index_chain: CodecChain { endian: Endianness::Little, checksum: true },
        location: ShardingIndexLocation::Start,
    };
    let shard = encode_shard(&vec![Some(vec![5u8; 4])], codec);
    let opts = CodecOptions { validate_checksums: true };
    assert_eq!(
        decode_shard_index(&shard[..10].to_vec(), 1, codec, &opts).unwrap_err(),
        CodecError::InvalidShardIndex
    );
    let mut bad = shard.clone();
    bad[0] ^= 1;
    assert_eq!(decode_shard_index(&bad, 1, codec, &opts).unwrap_err(), CodecError::ChecksumMismatch);
    let idx = vec![100u64, 4];
    assert_eq!(inner_chunk_bytes(&shard, &idx, 0).unwrap_err(), CodecError::InvalidShardIndex);
}
