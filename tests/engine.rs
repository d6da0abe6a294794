use zarrs_tools::key::{chunk_key, ChunkKeySeparator};
use zarrs_tools::codec::{
    convert_fill_value, crc32c_decode, crc32c_encode, decode_elements, encode_elements, CodecChain, CodecError,
    CodecOptions, DataType, Endianness,
};
use zarrs_tools::concurrency::{calculate_chunk_and_codec_concurrency, RecommendedConcurrency};
use zarrs_tools::grid::{ChunkGrid, GridError};
use zarrs_tools::index::{checked_num_elements, ravel_index, unravel_index};
use zarrs_tools::subset::{ArraySubset, SubsetError};

#[test]
fn planner_prefers_chunks_then_codec_threads() {
    let codec = RecommendedConcurrency::new(1, 8).unwrap();
    assert_eq!(calculate_chunk_and_codec_concurrency(16, None, codec, 4), (4, 4));
    assert_eq!(calculate_chunk_and_codec_concurrency(4, None, codec, 10), (4, 1));
    assert_eq!(calculate_chunk_and_codec_concurrency(64, None, codec, 2), (2, 8));
    assert_eq!(calculate_chunk_and_codec_concurrency(1, None, codec, 1), (1, 1));
}

#[test]
fn planner_override_is_clamped() {
    let codec = RecommendedConcurrency::new(2, 4).unwrap();
    assert_eq!(calculate_chunk_and_codec_concurrency(8, Some(0), codec, 10), (1, 4));
    assert_eq!(calculate_chunk_and_codec_concurrency(8, Some(100), codec, 3), (3, 2));
    assert_eq!(calculate_chunk_and_codec_concurrency(4, Some(8), codec, 10), (8, 1));
}

#[test]
fn planner_bounds_hold_over_a_range() {
    for target in 1..20usize {
        for chunks in 1..20usize {
            for lo in 1..5usize {
                for hi in lo..6usize {
                    let codec = RecommendedConcurrency::new(lo, hi).unwrap();
                    let (c, t) = calculate_chunk_and_codec_concurrency(target, None, codec, chunks);
                    assert!(1 <= c && c <= chunks);
                    assert!(c * t <= target);
                    assert!(1 <= t && t <= hi);
                    if target / c >= lo {
                        assert!(t >= lo);
                    }
                }
            }
        }
    }
}

#[test]
fn recommended_concurrency_rejects_bad_ranges() {
    assert!(RecommendedConcurrency::new(0, 1).is_none());
    assert!(RecommendedConcurrency::new(3, 2).is_none());
    assert!(RecommendedConcurrency::new(2, 2).is_some());
}

#[test]
fn ravel_and_unravel_are_row_major() {
    let shape = vec![2u64, 3, 4];
    assert_eq!(ravel_index(&vec![1, 2, 3], &shape), 23);
    assert_eq!(ravel_index(&vec![0, 1, 0], &shape), 4);
    assert_eq!(unravel_index(23, &shape), vec![1, 2, 3]);
    assert_eq!(unravel_index(5, &shape), vec![0, 1, 1]);
    assert_eq!(checked_num_elements(&shape), Some(24));
    assert_eq!(checked_num_elements(&vec![u64::MAX, 2]), None);
    assert_eq!(checked_num_elements(&vec![]), Some(1));
}

#[test]
fn subset_overlap_and_relative() {
    let a = ArraySubset::new_with_start_shape(vec![0, 2], vec![4, 4]).unwrap();
    let b = ArraySubset::new_with_start_shape(vec![2, 0], vec![4, 4]).unwrap();
    let o = a.overlap(&b).unwrap();
    assert_eq!(o.start, vec![2, 2]);
    assert_eq!(o.shape, vec![2, 2]);
    let c = ArraySubset::new_with_start_shape(vec![4, 0], vec![1, 1]).unwrap();
    assert!(a.overlap(&c).is_none());
    let r = o.relative_to(&vec![1, 2]).unwrap();
    assert_eq!(r.start, vec![1, 0]);
    assert_eq!(r.shape, vec![2, 2]);
    assert!(o.relative_to(&vec![3, 0]).is_none());
    assert!(o.relative_to(&vec![0]).is_none());
}

#[test]
fn subset_construction_errors() {
    assert_eq!(
        ArraySubset::new_with_start_shape(vec![0], vec![1, 2]).unwrap_err(),
        SubsetError::IncompatibleDimensionality
    );
    assert_eq!(
        ArraySubset::new_with_start_shape(vec![u64::MAX], vec![1]).unwrap_err(),
        SubsetError::EndOverflow
    );
}

#[test]
fn subset_counts_and_bounds() {
    let s = ArraySubset::new_with_start_shape(vec![1, 1], vec![2, 3]).unwrap();
    assert_eq!(s.num_elements(), Some(6));
    assert_eq!(s.end_exc(), vec![3, 4]);
    assert!(!s.is_empty());
    assert!(s.contains(&vec![2, 3]));
    assert!(!s.contains(&vec![3, 3]));
    assert!(s.inbounds_shape(&vec![3, 4]));
    assert!(!s.inbounds_shape(&vec![3, 3]));
    let empty = ArraySubset::new_with_start_shape(vec![0, 0], vec![0, 5]).unwrap();
    assert!(empty.is_empty());
    assert_eq!(empty.num_elements(), Some(0));
    let full = ArraySubset::new_with_shape(vec![2, 2]);
    assert_eq!(full.start, vec![0, 0]);
}

#[test]
fn grid_shapes_truncate_at_the_edge() {
    let g = ChunkGrid::new(vec![10, 7], vec![4, 3]).unwrap();
    assert_eq!(g.grid_shape(), vec![3, 3]);
    assert_eq!(g.chunk_shape_at(&vec![0, 0]).unwrap(), vec![4, 3]);
    assert_eq!(g.chunk_shape_at(&vec![2, 2]).unwrap(), vec![2, 1]);
    assert_eq!(g.chunk_shape_at(&vec![3, 0]).unwrap_err(), GridError::OutOfBounds);
    let s = g.chunk_subset_bounded(&vec![2, 1]).unwrap();
    assert_eq!(s.start, vec![8, 3]);
    assert_eq!(s.shape, vec![2, 3]);
    assert_eq!(g.chunk_indices_of(&vec![9, 6]), vec![2, 2]);
    assert_eq!(g.local_indices_of(&vec![9, 6]), vec![1, 0]);
    assert_eq!(
        ChunkGrid::new(vec![10], vec![0]).unwrap_err(),
        GridError::IncompatibleConfiguration
    );
}

#[test]
fn crc32c_known_value() {
    let data = b"123456789".to_vec();
    let out = crc32c_encode(&data);
    assert_eq!(out.len(), 13);
    assert_eq!(&out[9..], &0xE306_9283u32.to_le_bytes());
    let opts = CodecOptions { validate_checksums: true };
    assert_eq!(crc32c_decode(&out, &opts).unwrap(), data);
}

#[test]
fn endianness_of_encoded_elements() {
    let v = vec![0x0102u64, 0xA0B0];
    assert_eq!(
        encode_elements(&v, DataType::UInt16, Endianness::Little),
        vec![0x02, 0x01, 0xB0, 0xA0]
    );
    assert_eq!(
        encode_elements(&v, DataType::UInt16, Endianness::Big),
        vec![0x01, 0x02, 0xA0, 0xB0]
    );
    assert_eq!(
        decode_elements(&vec![1, 2, 3], 2, DataType::UInt16, Endianness::Little).unwrap_err(),
        CodecError::UnexpectedLength
    );
}

#[test]
fn endianness_round_trip_every_width() {
    let cases: Vec<(DataType, Vec<u64>)> = vec![
        (DataType::Int16, vec![0, 1, 0xFFFF, 0x8000]),
        (DataType::Float16, vec![0x3C00, 0x7BFF]),
        (DataType::BFloat16, vec![0x3F80]),
        (DataType::UInt32, vec![0xDEAD_BEEF, 7]),
        (DataType::Float32, vec![1.5f32.to_bits() as u64, (-2.25f32).to_bits() as u64]),
        (DataType::Int64, vec![u64::MAX, 0x0102_0304_0506_0708]),
        (DataType::Float64, vec![3.25f64.to_bits(), (-0.5f64).to_bits()]),
    ];
    for (dt, values) in cases {
        for chain in [
            CodecChain { endian: Endianness::Big, checksum: false },
            CodecChain { endian: Endianness::Little, checksum: true },
            CodecChain { endian: Endianness::Big, checksum: true },
        ] {
            let opts = CodecOptions { validate_checksums: true };
            let bytes = chain.encode(&values, dt);
            assert_eq!(chain.decode(&bytes, values.len() as u64, dt, &opts).unwrap(), values);
        }
    }
}

#[test]
fn checksum_toggle() {
    let chain = CodecChain { endian: Endianness::Little, checksum: true };
    let values = vec![1u64, 2, 3, 4];
    let mut bytes = chain.encode(&values, DataType::UInt8);
    let last = bytes.len() - 1;
    bytes[last] ^= 0xFF;
    let strict = CodecOptions { validate_checksums: true };
    let lax = CodecOptions { validate_checksums: false };
    assert_eq!(
        chain.decode(&bytes, 4, DataType::UInt8, &strict).unwrap_err(),
        CodecError::ChecksumMismatch
    );
    assert_eq!(chain.decode(&bytes, 4, DataType::UInt8, &lax).unwrap(), values);
}

#[test]
fn chunks_intersecting_a_subset() {
    let g = ChunkGrid::new(vec![10, 7], vec![4, 3]).unwrap();
    let s = ArraySubset::new_with_start_shape(vec![3, 2], vec![2, 5]).unwrap();
    let c = g.chunks_in_subset(&s);
    assert_eq!(c.start, vec![0, 0]);
    assert_eq!(c.shape, vec![2, 3]);
    let one = ArraySubset::new_with_start_shape(vec![9, 6], vec![1, 1]).unwrap();
    let c = g.chunks_in_subset(&one);
    assert_eq!(c.start, vec![2, 2]);
    assert_eq!(c.shape, vec![1, 1]);
    let empty = ArraySubset::new_with_start_shape(vec![5, 5], vec![0, 1]).unwrap();
    assert!(g.chunks_in_subset(&empty).is_empty());
}

#[test]
fn contiguous_runs_of_a_subset() {
    let full = ArraySubset::new_with_shape(vec![3, 4]);
    assert_eq!(full.contiguous_linearised_indices(&vec![3, 4]), vec![(0, 12)]);
    let rows = ArraySubset::new_with_start_shape(vec![1, 0], vec![2, 4]).unwrap();
    assert_eq!(rows.contiguous_linearised_indices(&vec![3, 4]), vec![(4, 8)]);
    let block = ArraySubset::new_with_start_shape(vec![1, 1], vec![2, 2]).unwrap();
    assert_eq!(block.contiguous_linearised_indices(&vec![3, 4]), vec![(5, 2), (9, 2)]);
    let empty = ArraySubset::new_with_start_shape(vec![1, 1], vec![0, 2]).unwrap();
    assert!(empty.contiguous_linearised_indices(&vec![3, 4]).is_empty());
}

#[test]
fn tiling_subsets_partition_the_linear_range() {
    let a = ArraySubset::new_with_start_shape(vec![0, 0], vec![3, 2]).unwrap();
    let b = ArraySubset::new_with_start_shape(vec![0, 2], vec![3, 2]).unwrap();
    let mut seen = vec![0u32; 12];
    for s in [&a, &b] {
        for (o, l) in s.contiguous_linearised_indices(&vec![3, 4]) {
            for i in o..o + l {
                seen[i as usize] += 1;
            }
        }
    }
    assert!(seen.iter().all(|&c| c == 1));
}

#[test]
fn chunk_keys() {
    assert_eq!(chunk_key(&vec![1, 23], ChunkKeySeparator::Slash), b"c/1/23".to_vec());
    assert_eq!(chunk_key(&vec![0, 10, 7], ChunkKeySeparator::Dot), b"c.0.10.7".to_vec());
    assert_eq!(chunk_key(&vec![], ChunkKeySeparator::Slash), b"c".to_vec());
    assert_eq!(
        chunk_key(&vec![u64::MAX], ChunkKeySeparator::Slash),
        format!("c/{}", u64::MAX).into_bytes()
    );
}

#[test]
fn fill_value_conversion() {
    assert_eq!(convert_fill_value(DataType::Int8, 0xFF, DataType::Int32), Some(0xFFFF_FFFF));
    assert_eq!(convert_fill_value(DataType::UInt8, 0xFF, DataType::Int32), Some(0xFF));
    assert_eq!(convert_fill_value(DataType::UInt16, 0x1234, DataType::UInt8), Some(0x34));
    assert_eq!(convert_fill_value(DataType::Int64, u64::MAX, DataType::UInt16), Some(0xFFFF));
    assert_eq!(convert_fill_value(DataType::Bool, 1, DataType::Int64), Some(1));
    assert_eq!(convert_fill_value(DataType::Float32, 0, DataType::Int8), None);
    assert_eq!(convert_fill_value(DataType::Int8, 1, DataType::Float64), None);
}
