use zarrs_tools::array::{Array, ArrayError, ChunkCodec, ShardIndexCache};
use zarrs_tools::codec::{CodecChain, CodecError, CodecOptions, DataType, Endianness};
use zarrs_tools::shard_codec::ShardingCodec;
use zarrs_tools::sharding::{ShardIndexCodec, ShardingIndexLocation, OFFSET_UNSET};
use zarrs_tools::subset::ArraySubset;

const SHAPE: [u64; 2] = [10, 7];
const FILL: u64 = 0xFFFF;

fn validate() -> CodecOptions {
    CodecOptions { validate_checksums: true }
}

fn plain_array() -> Array {
    Array::new(
        SHAPE.to_vec(),
        vec![4, 3],
        DataType::UInt32,
        FILL,
        ChunkCodec::Plain(CodecChain { endian: Endianness::Big, checksum: true }),
    )
    .unwrap()
}

fn sharded_codec(location: ShardingIndexLocation, omit: bool) -> ShardingCodec {
    ShardingCodec {
        inner_shape: vec![2, 3],
        inner_chain: CodecChain { endian: Endianness::Little, checksum: false },
        index_codec: ShardIndexCodec {
            index_chain: CodecChain { endian: Endianness::Little, checksum: true },
            location,
        },
        omit_fill_chunks: omit,
    }
}

fn sharded_array(location: ShardingIndexLocation, omit: bool) -> Array {
    Array::new(
        SHAPE.to_vec(),
        vec![4, 6],
        DataType::UInt32,
        FILL,
        ChunkCodec::Sharded(sharded_codec(location, omit)),
    )
    .unwrap()
}

/// Every element holds its own row-major index.
fn fill_pattern(array: &mut Array) {
    let data: Vec<u64> = (0..70).collect();
    let all = ArraySubset::new_with_shape(SHAPE.to_vec());
    array.store_array_subset(&all, &data, &validate()).unwrap();
}

fn expected(start: [u64; 2], shape: [u64; 2]) -> Vec<u64> {
    let mut out = Vec::new();
    for i in start[0]..start[0] + shape[0] {
        for j in start[1]..start[1] + shape[1] {
            out.push(i * 7 + j);
        }
    }
    out
}

fn check_gather(array: &Array) {
    let cases: [([u64; 2], [u64; 2]); 5] = [
        ([0, 0], [10, 7]),
        ([4, 3], [4, 3]),
        ([5, 4], [2, 1]),
        ([2, 1], [7, 5]),
        ([9, 6], [1, 1]),
    ];
    for (start, shape) in cases {
        let s = ArraySubset::new_with_start_shape(start.to_vec(), shape.to_vec()).unwrap();
        assert_eq!(array.retrieve_array_subset(&s, &validate()).unwrap(), expected(start, shape));
    }
}

#[test]
fn gather_matches_pattern_unsharded() {
    let mut a = plain_array();
    fill_pattern(&mut a);
    check_gather(&a);
}

#[test]
fn gather_matches_pattern_sharded() {
    for location in [ShardingIndexLocation::Start, ShardingIndexLocation::End] {
        for omit in [false, true] {
            let mut a = sharded_array(location, omit);
            fill_pattern(&mut a);
            check_gather(&a);
        }
    }
}

#[test]
fn unwritten_array_reads_fill() {
    let a = plain_array();
    let s = ArraySubset::new_with_start_shape(vec![3, 2], vec![5, 4]).unwrap();
    assert_eq!(a.retrieve_array_subset(&s, &validate()).unwrap(), vec![FILL; 20]);
    assert_eq!(a.retrieve_chunk(&vec![2, 2], &validate()).unwrap(), vec![FILL; 2]);
    let b = sharded_array(ShardingIndexLocation::End, true);
    assert_eq!(b.retrieve_chunk(&vec![1, 1], &validate()).unwrap(), vec![FILL; 4]);
}

#[test]
fn partial_write_keeps_other_elements() {
    let mut a = sharded_array(ShardingIndexLocation::Start, true);
    let s = ArraySubset::new_with_start_shape(vec![1, 2], vec![2, 2]).unwrap();
    a.store_array_subset(&s, &vec![1, 2, 3, 4], &validate()).unwrap();
    let all = ArraySubset::new_with_shape(SHAPE.to_vec());
    let out = a.retrieve_array_subset(&all, &validate()).unwrap();
    for i in 0..10u64 {
        for j in 0..7u64 {
            let v = out[(i * 7 + j) as usize];
            let want = if (1..3).contains(&i) && (2..4).contains(&j) {
                (i - 1) * 2 + (j - 2) + 1
            } else {
                FILL
            };
            assert_eq!(v, want);
        }
    }
}

#[test]
fn inner_chunks_match_full_shard_decode() {
    for omit in [false, true] {
        let mut a = sharded_array(ShardingIndexLocation::End, omit);
        // only part of the first shard is written, so with omission some inner
        // chunks are recorded as unset
        let s = ArraySubset::new_with_start_shape(vec![0, 0], vec![2, 3]).unwrap();
        a.store_array_subset(&s, &vec![7, 8, 9, 10, 11, 12], &validate()).unwrap();
        let shard = a.retrieve_chunk(&vec![0, 0], &validate()).unwrap();
        for j in 0..4u64 {
            let (gi, gj) = (j / 2, j % 2);
            let inner = a.retrieve_inner_chunk(&vec![0, 0], j, &validate()).unwrap();
            let mut want = Vec::new();
            for r in 0..2u64 {
                for c in 0..3u64 {
                    want.push(shard[((gi * 2 + r) * 6 + gj * 3 + c) as usize]);
                }
            }
            assert_eq!(inner, want);
        }
        // a shard never written
        let inner = a.retrieve_inner_chunk(&vec![1, 0], 3, &validate()).unwrap();
        assert_eq!(inner, vec![FILL; 6]);
        assert_eq!(
            a.retrieve_inner_chunk(&vec![0, 0], 4, &validate()).unwrap_err(),
            ArrayError::OutOfBounds
        );
    }
}

#[test]
fn omitted_inner_chunks_are_unset_in_the_index() {
    let mut a = sharded_array(ShardingIndexLocation::End, true);
    let s = ArraySubset::new_with_start_shape(vec![0, 0], vec![2, 3]).unwrap();
    a.store_array_subset(&s, &vec![1, 2, 3, 4, 5, 6], &validate()).unwrap();
    let bytes = a.store[0].as_ref().unwrap();
    // one inner chunk of 6 four-byte elements, then 4 index entries and a checksum
    assert_eq!(bytes.len(), 24 + 64 + 4);
    let entry = |k: usize| u64::from_le_bytes(bytes[24 + 8 * k..32 + 8 * k].try_into().unwrap());
    assert_eq!((entry(0), entry(1)), (0, 24));
    for k in 1..4 {
        assert_eq!((entry(2 * k), entry(2 * k + 1)), (OFFSET_UNSET, OFFSET_UNSET));
    }
}

#[test]
fn retrieval_is_deterministic_across_decompositions() {
    let mut a = sharded_array(ShardingIndexLocation::Start, false);
    fill_pattern(&mut a);
    let all = ArraySubset::new_with_shape(SHAPE.to_vec());
    let whole = a.retrieve_array_subset(&all, &validate()).unwrap();
    let lax = a.retrieve_array_subset(&all, &CodecOptions { validate_checksums: false }).unwrap();
    assert_eq!(whole, lax);
    let mut pieces = Vec::new();
    for i in 0..10u64 {
        let row = ArraySubset::new_with_start_shape(vec![i, 0], vec![1, 7]).unwrap();
        pieces.extend(a.retrieve_array_subset(&row, &validate()).unwrap());
    }
    assert_eq!(whole, pieces);
}

#[test]
fn store_chunk_round_trip_and_errors() {
    let mut a = plain_array();
    let elems: Vec<u64> = (100..112).collect();
    a.store_chunk(&vec![1, 1], &elems).unwrap();
    assert_eq!(a.retrieve_chunk(&vec![1, 1], &validate()).unwrap(), elems);
    assert_eq!(a.store_chunk(&vec![3, 0], &elems).unwrap_err(), ArrayError::OutOfBounds);
    assert_eq!(
        a.store_chunk(&vec![0, 0], &vec![1, 2]).unwrap_err(),
        ArrayError::UnexpectedElementCount
    );
    a.erase_chunk(&vec![1, 1]).unwrap();
    assert_eq!(a.retrieve_chunk(&vec![1, 1], &validate()).unwrap(), vec![FILL; 12]);
    assert_eq!(a.retrieve_chunk(&vec![0, 3], &validate()).unwrap_err(), ArrayError::OutOfBounds);
}

#[test]
fn corrupted_chunk_checksum() {
    let mut a = plain_array();
    fill_pattern(&mut a);
    let last = a.store[0].as_ref().unwrap().len() - 1;
    a.store[0].as_mut().unwrap()[last] ^= 0x5A;
    let s = ArraySubset::new_with_start_shape(vec![0, 0], vec![2, 2]).unwrap();
    assert_eq!(
        a.retrieve_array_subset(&s, &validate()).unwrap_err(),
        ArrayError::Codec(CodecError::ChecksumMismatch)
    );
    let lax = CodecOptions { validate_checksums: false };
    assert_eq!(a.retrieve_array_subset(&s, &lax).unwrap(), vec![0, 1, 7, 8]);
}

#[test]
fn subset_errors() {
    let mut a = plain_array();
    let outside = ArraySubset::new_with_start_shape(vec![8, 0], vec![3, 1]).unwrap();
    assert_eq!(a.retrieve_array_subset(&outside, &validate()).unwrap_err(), ArrayError::OutOfBounds);
    assert_eq!(
        a.store_array_subset(&outside, &vec![1, 2, 3], &validate()).unwrap_err(),
        ArrayError::OutOfBounds
    );
    let inside = ArraySubset::new_with_start_shape(vec![0, 0], vec![1, 2]).unwrap();
    assert_eq!(
        a.store_array_subset(&inside, &vec![1], &validate()).unwrap_err(),
        ArrayError::UnexpectedElementCount
    );
    let empty = ArraySubset::new_with_start_shape(vec![3, 3], vec![0, 2]).unwrap();
    assert_eq!(a.retrieve_array_subset(&empty, &validate()).unwrap(), Vec::<u64>::new());
}

#[test]
fn invalid_configurations() {
    let chain = CodecChain { endian: Endianness::Little, checksum: false };
    assert_eq!(
        Array::new(vec![4], vec![0], DataType::UInt8, 0, ChunkCodec::Plain(chain)).unwrap_err(),
        ArrayError::IncompatibleConfiguration
    );
    assert_eq!(
        Array::new(vec![4], vec![2], DataType::UInt8, 256, ChunkCodec::Plain(chain)).unwrap_err(),
        ArrayError::IncompatibleConfiguration
    );
    let codec = ShardingCodec {
        inner_shape: vec![3],
        inner_chain: chain,
        index_codec: ShardIndexCodec { index_chain: chain, location: ShardingIndexLocation::End },
        omit_fill_chunks: false,
    };
    assert_eq!(
        Array::new(vec![8], vec![4], DataType::UInt8, 0, ChunkCodec::Sharded(codec)).unwrap_err(),
        ArrayError::IncompatibleConfiguration
    );
}

#[test]
fn plain_array_rejects_inner_chunk_reads() {
    let a = plain_array();
    assert_eq!(
        a.retrieve_inner_chunk(&vec![0, 0], 0, &validate()).unwrap_err(),
        ArrayError::IncompatibleConfiguration
    );
}

#[test]
fn decode_granularity_and_concurrency() {
    let a = plain_array();
    assert_eq!(a.partial_decode_granularity(&vec![2, 2]).unwrap(), vec![2, 1]);
    let rc = a.recommended_concurrency(&vec![0, 0]).unwrap();
    assert_eq!((rc.min, rc.max), (1, 1));
    assert_eq!(a.recommended_concurrency(&vec![5, 0]).unwrap_err(), ArrayError::OutOfBounds);
    let b = sharded_array(ShardingIndexLocation::End, false);
    assert_eq!(b.partial_decode_granularity(&vec![0, 0]).unwrap(), vec![2, 3]);
    let rc = b.recommended_concurrency(&vec![0, 0]).unwrap();
    assert_eq!((rc.min, rc.max), (1, 4));
    // the last shard along the second axis holds one column, in one inner chunk per row pair
    let rc = b.recommended_concurrency(&vec![2, 1]).unwrap();
    assert_eq!((rc.min, rc.max), (1, 1));
}

#[test]
fn cached_inner_chunk_reads_match_uncached() {
    let mut a = sharded_array(ShardingIndexLocation::Start, true);
    let s = ArraySubset::new_with_start_shape(vec![0, 0], vec![4, 3]).unwrap();
    a.store_array_subset(&s, &(0..12).collect(), &validate()).unwrap();
    let mut cache = ShardIndexCache::new(&a);
    for round in 0..2 {
        for g in [vec![0u64, 0], vec![1, 1], vec![2, 0]] {
            for j in 0..4u64 {
                let direct = a.retrieve_inner_chunk(&g, j, &validate());
                let cached = a.retrieve_inner_chunk_cached(&mut cache, &g, j, &validate());
                match (direct, cached) {
                    (Ok(x), Ok(y)) => assert_eq!(x, y, "round {round}"),
                    (Err(x), Err(y)) => assert_eq!(x, y),
                    (x, y) => panic!("{x:?} differs from {y:?}"),
                }
            }
        }
    }
    // inner chunk 2 of the first shard holds rows 2..4, columns 0..3
    assert_eq!(
        a.retrieve_inner_chunk_cached(&mut cache, &vec![0, 0], 2, &validate()).unwrap(),
        vec![6, 7, 8, 9, 10, 11]
    );
    // inner chunk 1 (rows 0..2, columns 3..6) was never written
    assert_eq!(
        a.retrieve_inner_chunk_cached(&mut cache, &vec![0, 0], 1, &validate()).unwrap(),
        vec![FILL; 6]
    );
}
