use zarrs_tools::array::{Array, ArrayError, ChunkCodec};
use zarrs_tools::codec::{encode_elements, CodecChain, CodecOptions, DataType, Endianness};
use zarrs_tools::ingest::store_block;
use zarrs_tools::chunk_cache::{CacheSize, ChunkCache};
use zarrs_tools::reencode::{
    arrays_match, encoding_for, reencode, reencode_encoding, reencode_fill_value,
};
use zarrs_tools::subset::ArraySubset;

fn opts() -> CodecOptions {
    CodecOptions { validate_checksums: true }
}

fn chain() -> CodecChain {
    CodecChain { endian: Endianness::Little, checksum: true }
}

fn array(shape: Vec<u64>, chunks: Vec<u64>, shards: Option<Vec<u64>>) -> Array {
    let (block, codec) = encoding_for(&shape, &chunks, shards, chain()).unwrap();
    Array::new(shape, block, DataType::UInt16, 0, codec).unwrap()
}

#[test]
fn encoding_shapes() {
    let (block, codec) = encoding_for(&vec![10, 7], &vec![4, 0], None, chain()).unwrap();
    assert_eq!(block, vec![4, 7]);
    assert!(matches!(codec, ChunkCodec::Plain(_)));
    let (block, codec) = encoding_for(&vec![10, 7], &vec![4, 3], Some(vec![5, 0]), chain()).unwrap();
    assert_eq!(block, vec![8, 9]);
    match codec {
        ChunkCodec::Sharded(sc) => {
            assert_eq!(sc.inner_shape, vec![4, 3]);
            assert!(sc.index_codec.index_chain.checksum);
        }
        ChunkCodec::Plain(_) => panic!("expected a sharding codec"),
    }
    let (block, _) = encoding_for(&vec![10], &vec![4], Some(vec![100]), chain()).unwrap();
    assert_eq!(block, vec![12]);
    assert_eq!(
        encoding_for(&vec![10, 7], &vec![4], None, chain()).unwrap_err(),
        ArrayError::IncompatibleConfiguration
    );
    assert_eq!(
        encoding_for(&vec![u64::MAX], &vec![2], Some(vec![0]), chain()).unwrap_err(),
        ArrayError::IncompatibleConfiguration
    );
}

#[test]
fn reencode_encoding_keeps_unset_settings() {
    let a = array(vec![10, 7], vec![2, 3], Some(vec![4, 6]));
    let (block, codec) = reencode_encoding(&a, None, None, None).unwrap();
    assert_eq!(block, vec![4, 6]);
    assert!(matches!(codec, ChunkCodec::Sharded(_)));
    let (block, codec) = reencode_encoding(&a, Some(vec![5, 7]), None, None).unwrap();
    assert_eq!(block, vec![5, 7]);
    match codec {
        ChunkCodec::Sharded(sc) => assert_eq!(sc.inner_shape, vec![5, 7]),
        ChunkCodec::Plain(_) => panic!("expected a sharding codec"),
    }
    let p = array(vec![10, 7], vec![2, 3], None);
    let (block, codec) = reencode_encoding(&p, None, None, None).unwrap();
    assert_eq!(block, vec![2, 3]);
    assert!(matches!(codec, ChunkCodec::Plain(_)));
}

#[test]
fn reencode_copies_every_element() {
    let mut input = array(vec![10, 7], vec![4, 3], None);
    let all = ArraySubset::new_with_shape(vec![10, 7]);
    let data: Vec<u64> = (0..70).collect();
    input.store_array_subset(&all, &data, &opts()).unwrap();
    for shards in [None, Some(vec![4, 6])] {
        let mut output = array(vec![10, 7], vec![2, 3], shards);
        let bytes = reencode(&input, &mut output, None, true, &opts()).unwrap();
        assert_eq!(bytes, 140);
        assert_eq!(output.retrieve_array_subset(&all, &opts()).unwrap(), data);
    }
}

#[test]
fn reencode_rejects_mismatched_shapes() {
    let input = array(vec![10, 7], vec![4, 3], None);
    let mut output = array(vec![10, 6], vec![4, 3], None);
    assert_eq!(
        reencode(&input, &mut output, None, false, &opts()).unwrap_err(),
        ArrayError::IncompatibleConfiguration
    );
    let mut same = array(vec![10, 7], vec![5, 7], None);
    assert_eq!(
        reencode(&input, &mut same, Some(vec![5]), false, &opts()).unwrap_err(),
        ArrayError::IncompatibleConfiguration
    );
    assert!(same.store.iter().all(|c| c.is_none()));
    assert_eq!(reencode(&input, &mut same, Some(vec![5, 7]), false, &opts()).unwrap(), 140);
}

#[test]
fn blocks_fill_the_array() {
    let mut a = array(vec![5, 3], vec![2, 3], None);
    let values: Vec<u64> = (0..15).map(|v| v * 1000).collect();
    for (idx, rows) in [(0u64, 0..2u64), (1, 2..4), (2, 4..5)] {
        let part: Vec<u64> = rows.flat_map(|r| (0..3).map(move |c| (r * 3 + c) * 1000)).collect();
        let bytes = encode_elements(&part, DataType::UInt16, Endianness::Big);
        store_block(&mut a, idx, &bytes, Endianness::Big, &opts()).unwrap();
    }
    let all = ArraySubset::new_with_shape(vec![5, 3]);
    assert_eq!(a.retrieve_array_subset(&all, &opts()).unwrap(), values);
    assert_eq!(
        store_block(&mut a, 0, &vec![1, 2, 3], Endianness::Little, &opts()).unwrap_err(),
        ArrayError::Codec(zarrs_tools::codec::CodecError::UnexpectedLength)
    );
}

#[test]
fn metadata_marks_completion() {
    let mut a = array(vec![4, 4], vec![2, 2], None);
    assert!(!a.has_metadata());
    a.store_metadata(b"{\"shape\":[4,4]}".to_vec());
    assert!(a.has_metadata());
    assert_eq!(a.metadata.as_deref(), Some(&b"{\"shape\":[4,4]}"[..]));
    let s = ArraySubset::new_with_shape(vec![4, 4]);
    a.store_array_subset(&s, &(0..16).collect(), &opts()).unwrap();
    assert!(a.has_metadata());
    a.erase_metadata();
    assert!(!a.has_metadata());
}

#[test]
fn reencode_encoding_keeps_a_shard_larger_than_the_array() {
    let codec = zarrs_tools::shard_codec::ShardingCodec {
        inner_shape: vec![4],
        inner_chain: chain(),
        index_codec: zarrs_tools::sharding::ShardIndexCodec {
            index_chain: chain(),
            location: zarrs_tools::sharding::ShardingIndexLocation::End,
        },
        omit_fill_chunks: true,
    };
    let a = Array::new(vec![10], vec![16], DataType::UInt16, 0, ChunkCodec::Sharded(codec)).unwrap();
    let (block, _) = reencode_encoding(&a, None, None, None).unwrap();
    assert_eq!(block, vec![16]);
    // an inner chunk override rounds the kept shard up to its multiple
    let (block, _) = reencode_encoding(&a, Some(vec![5]), None, None).unwrap();
    assert_eq!(block, vec![20]);
    // a shard override is capped at the array extent, then rounded up
    let (block, _) = reencode_encoding(&a, None, Some(vec![16]), None).unwrap();
    assert_eq!(block, vec![12]);
}

#[test]
fn comparing_arrays() {
    let mut a = array(vec![6, 4], vec![2, 2], None);
    let mut b = array(vec![6, 4], vec![3, 4], Some(vec![6, 4]));
    let all = ArraySubset::new_with_shape(vec![6, 4]);
    let data: Vec<u64> = (0..24).collect();
    a.store_array_subset(&all, &data, &opts()).unwrap();
    assert_eq!(arrays_match(&a, &b, &opts()), Ok(false));
    b.store_array_subset(&all, &data, &opts()).unwrap();
    assert_eq!(arrays_match(&a, &b, &opts()), Ok(true));
    let c = array(vec![6, 5], vec![2, 2], None);
    assert_eq!(arrays_match(&a, &c, &opts()), Ok(false));
    let last = a.store[0].as_ref().unwrap().len() - 1;
    a.store[0].as_mut().unwrap()[last] ^= 1;
    assert!(arrays_match(&a, &b, &opts()).is_err());
}

#[test]
fn cached_subset_reads_match() {
    let mut a = array(vec![6, 4], vec![2, 2], None);
    let all = ArraySubset::new_with_shape(vec![6, 4]);
    let data: Vec<u64> = (0..24).collect();
    a.store_array_subset(&all, &data, &opts()).unwrap();
    let mut cache = ChunkCache::new(CacheSize::ChunksTotal(2), 8).unwrap();
    for _ in 0..2 {
        let s = ArraySubset::new_with_start_shape(vec![1, 1], vec![4, 3]).unwrap();
        assert_eq!(
            a.retrieve_array_subset_cached(&mut cache, &s, &opts()).unwrap(),
            a.retrieve_array_subset(&s, &opts()).unwrap()
        );
        assert_eq!(a.retrieve_array_subset_cached(&mut cache, &all, &opts()).unwrap(), data);
    }
    assert!(ChunkCache::new(CacheSize::Disabled, 8).is_none());
    assert!(ChunkCache::new(CacheSize::SizeTotal(4), 8).is_some());
}

#[test]
fn fill_values_of_a_copy() {
    let a = Array::new(vec![4], vec![2], DataType::Int8, 0xFF, ChunkCodec::Plain(chain())).unwrap();
    assert_eq!(reencode_fill_value(&a, None, None), Some((DataType::Int8, 0xFF)));
    assert_eq!(
        reencode_fill_value(&a, Some(DataType::Int16), None),
        Some((DataType::Int16, 0xFFFF))
    );
    assert_eq!(reencode_fill_value(&a, Some(DataType::UInt8), Some(300)), None);
    assert_eq!(reencode_fill_value(&a, Some(DataType::UInt16), Some(300)), Some((DataType::UInt16, 300)));
    assert_eq!(reencode_fill_value(&a, Some(DataType::Float32), None), None);
}
