use zarrs_tools::codec::{encode_elements, reverse_endianness, DataType, Endianness};
use zarrs_tools::filter::{
    calculate_chunk_limit, get_axis_start_index, FilterError, parse_path_or_identifier, Crop, Downsample, FilterInputOutputArguments,
    GradientMagnitude, PathOrIdentifier, Reencode, SummedAreaTable, ZarrReEncodingChangeType,
    ZarrReencodingArgs,
};
use zarrs_tools::overlap::ArraySubsetOverlap;
use zarrs_tools::progress::{Progress, ProgressCallback};
use zarrs_tools::subset::ArraySubset;

#[test]
fn path_or_identifier_parsing() {
    match parse_path_or_identifier("$tmp") {
        PathOrIdentifier::Identifier(s) => assert_eq!(s, "$tmp"),
        PathOrIdentifier::Path(_) => panic!("expected an identifier"),
    }
    match parse_path_or_identifier("/data/in.zarr") {
        PathOrIdentifier::Path(s) => assert_eq!(s, "/data/in.zarr"),
        PathOrIdentifier::Identifier(_) => panic!("expected a path"),
    }
    assert!(matches!(parse_path_or_identifier(""), PathOrIdentifier::Path(_)));
}

#[test]
fn filter_input_output_getters() {
    let args = FilterInputOutputArguments::new(
        Some(parse_path_or_identifier("a")),
        None,
    );
    assert!(matches!(args.input(), Some(PathOrIdentifier::Path(_))));
    assert!(args.output().is_none());
}

#[test]
fn crop_shifts_by_offset() {
    let crop = Crop::new(vec![5, 10], vec![4, 4], Some(2));
    assert_eq!(crop.output_shape(), vec![4, 4]);
    let out = ArraySubset::new_with_start_shape(vec![2, 0], vec![2, 4]).unwrap();
    let input = crop.input_subset(&out).unwrap();
    assert_eq!(input.start, vec![7, 10]);
    assert_eq!(input.shape, vec![2, 4]);
    let far = Crop::new(vec![u64::MAX, 0], vec![1, 1], None);
    assert!(far.input_subset(&out).is_err());
}

#[test]
fn downsample_geometry() {
    let d = Downsample::new(vec![2, 3], false, None);
    assert_eq!(d.output_shape(&vec![9, 2]), vec![4, 1]);
    let out = ArraySubset::new_with_start_shape(vec![1, 0], vec![4, 1]).unwrap();
    let input = d.input_subset(&vec![9, 2], &out);
    assert_eq!(input.start, vec![2, 0]);
    assert_eq!(input.shape, vec![7, 2]);
}

#[test]
fn simple_filters_construct() {
    let _ = GradientMagnitude::new(Some(1));
    let _ = Reencode::new(None);
    let _ = SummedAreaTable::new(Some(3));
    assert_ne!(ZarrReEncodingChangeType::Unchanged, ZarrReEncodingChangeType::Metadata);
}

#[test]
fn progress_reports_each_step() {
    let mut cb = ProgressCallback::new();
    let mut p = Progress::new(3, &mut cb);
    p.read(10);
    p.process(5);
    p.process_step(2, 7);
    p.process_step(0, 1);
    p.write(u64::MAX);
    p.write(3);
    p.next(&mut cb);
    let reports = cb.reports();
    assert_eq!(reports.len(), 2);
    assert_eq!(reports[0].step, 0);
    assert_eq!(reports[1].step, 1);
    assert_eq!(reports[1].num_steps, 3);
    assert_eq!(reports[1].read, 10);
    assert_eq!(reports[1].process, 5);
    assert_eq!(reports[1].process_steps, vec![1, 0, 7]);
    assert_eq!(reports[1].write, u64::MAX);
}

#[test]
fn overlap_grows_and_clamps() {
    let subset = ArraySubset::new_with_start_shape(vec![1, 4], vec![2, 3]).unwrap();
    let o = ArraySubsetOverlap::new(&vec![5, 8], &subset, &vec![2, 2]);
    let input = o.subset_input();
    assert_eq!(input.start, vec![0, 2]);
    assert_eq!(input.shape, vec![5, 6]);
    // the grown region holds 30 elements; the requested subset starts at (1, 2) in it
    let elems: Vec<u64> = (0..30).collect();
    assert_eq!(o.extract_subset(&elems), vec![8, 9, 10, 14, 15, 16]);
}

#[test]
fn chunk_limit_from_memory() {
    assert_eq!(calculate_chunk_limit(1000, 100).unwrap(), 8);
    assert_eq!(calculate_chunk_limit(1000, 799).unwrap(), 1);
    assert!(matches!(calculate_chunk_limit(1000, 801), Err(FilterError::Other(_))));
    assert_eq!(calculate_chunk_limit(usize::MAX, 1).unwrap(), ((usize::MAX as u128) * 8 / 10) as usize);
}

#[test]
fn reverse_endianness_swaps_each_element() {
    let mut v = vec![1u8, 2, 3, 4, 5, 6, 7];
    reverse_endianness(&mut v, DataType::UInt16);
    assert_eq!(v, vec![2, 1, 4, 3, 6, 5, 7]);
    let mut w = vec![1u8, 2, 3, 4, 5, 6, 7, 8];
    reverse_endianness(&mut w, DataType::Float64);
    assert_eq!(w, vec![8, 7, 6, 5, 4, 3, 2, 1]);
    let mut b = vec![9u8, 8];
    reverse_endianness(&mut b, DataType::Int8);
    assert_eq!(b, vec![9, 8]);
    let values = vec![0x0102_0304u64, 0xA0B0_C0D0];
    let mut le = encode_elements(&values, DataType::UInt32, Endianness::Little);
    reverse_endianness(&mut le, DataType::UInt32);
    assert_eq!(le, encode_elements(&values, DataType::UInt32, Endianness::Big));
}

#[test]
fn axis_start_indices() {
    let shape = vec![2u64, 3, 4];
    // lines along axis 2 start at every 4th element
    assert_eq!(get_axis_start_index(2, 5, &shape), 20);
    // lines along axis 0: indices over (1, 3, 4)
    assert_eq!(get_axis_start_index(0, 7, &shape), 7);
    // lines along axis 1: indices over (2, 1, 4)
    assert_eq!(get_axis_start_index(1, 5, &shape), 13);
}

#[test]
fn reencoding_change_type() {
    let none = ZarrReencodingArgs::default();
    assert_eq!(none.change_type(), ZarrReEncodingChangeType::Unchanged);
    let meta = ZarrReencodingArgs { attributes: Some("{}".to_string()), ..Default::default() };
    assert_eq!(meta.change_type(), ZarrReEncodingChangeType::Metadata);
    let chunks = ZarrReencodingArgs {
        chunk_shape: Some(vec![8, 8]),
        attributes: Some("{}".to_string()),
        ..Default::default()
    };
    assert_eq!(chunks.change_type(), ZarrReEncodingChangeType::MetadataAndChunks);
    let sep = ZarrReencodingArgs { separator: Some('.'), ..Default::default() };
    assert_eq!(sep.change_type(), ZarrReEncodingChangeType::MetadataAndChunks);
}

#[test]
fn overlap_of_an_empty_subset() {
    let subset = ArraySubset::new_with_start_shape(vec![2, 3], vec![0, 2]).unwrap();
    let o = ArraySubsetOverlap::new(&vec![5, 8], &subset, &vec![0, 0]);
    assert_eq!(o.subset_input().shape, vec![0, 2]);
    assert_eq!(o.extract_subset(&vec![]), Vec::<u64>::new());
}
