//! Filters over chunked arrays: their arguments, and the geometry that maps an
//! output region to the input region a filter reads.
use vstd::prelude::*;
use vstd::string::StringSliceAdditionalSpecFns;
use crate::subset::{ArraySubset, SubsetError, ends_fit};
use crate::index::{
    copy_u64s, all_positive, num_elements, ravel, unravel, ravel_index, unravel_index,
    lemma_unravel_in_bounds,
};
use crate::region::lemma_num_elements_le;
use crate::array::ArrayError;
use crate::codec::DataType;

verus! {

/// A filesystem path, or an identifier (starting with `$`) naming an
/// intermediate array.
#[derive(Clone, Debug)]
pub enum PathOrIdentifier {
    Path(String),
    Identifier(String),
}

/// An identifier starts with `$`; anything else is a path.
pub fn parse_path_or_identifier(path_or_id: &str) -> (r: PathOrIdentifier)
    ensures
        match r {
            PathOrIdentifier::Identifier(s) => s@ == path_or_id@ && path_or_id.spec_bytes().len()
                > 0 && path_or_id.spec_bytes()[0] == 36u8,
            PathOrIdentifier::Path(s) => s@ == path_or_id@ && !(path_or_id.spec_bytes().len() > 0
                && path_or_id.spec_bytes()[0] == 36u8),
        },
{
    let bytes = path_or_id.as_bytes();
    let owned = path_or_id.to_owned();
    if bytes.len() > 0 && bytes[0] == 36u8 {
        PathOrIdentifier::Identifier(owned)
    } else {
        PathOrIdentifier::Path(owned)
    }
}

/// The input and output arrays of a filter.
#[derive(Clone, Debug)]
pub struct FilterInputOutputArguments {
    input: Option<PathOrIdentifier>,
    output: Option<PathOrIdentifier>,
}

impl FilterInputOutputArguments {
    pub closed spec fn input_view(&self) -> Option<PathOrIdentifier> {
        self.input
    }

    pub closed spec fn output_view(&self) -> Option<PathOrIdentifier> {
        self.output
    }

    pub fn new(input: Option<PathOrIdentifier>, output: Option<PathOrIdentifier>) -> (r: Self)
        ensures
            r.input_view() == input,
            r.output_view() == output,
    {
        FilterInputOutputArguments { input, output }
    }

    pub fn input(&self) -> (r: &Option<PathOrIdentifier>)
        ensures
            *r == self.input_view(),
    {
        &self.input
    }

    pub fn output(&self) -> (r: &Option<PathOrIdentifier>)
        ensures
            *r == self.output_view(),
    {
        &self.output
    }
}

/// Arguments of the crop filter: the offset and shape of the kept region.
#[derive(Clone, Debug)]
pub struct CropArguments {
    pub offset: Vec<u64>,
    pub shape: Vec<u64>,
}

/// Keeps the region `offset .. offset + shape` of the input.
#[derive(Clone, Debug)]
pub struct Crop {
    offset: Vec<u64>,
    shape: Vec<u64>,
    chunk_limit: Option<usize>,
}

impl Crop {
    pub closed spec fn offset_view(&self) -> Seq<u64> {
        self.offset@
    }

    pub closed spec fn shape_view(&self) -> Seq<u64> {
        self.shape@
    }

    pub closed spec fn chunk_limit_view(&self) -> Option<usize> {
        self.chunk_limit
    }

    pub fn new(offset: Vec<u64>, shape: Vec<u64>, chunk_limit: Option<usize>) -> (r: Self)
        ensures
            r.offset_view() == offset@,
            r.shape_view() == shape@,
            r.chunk_limit_view() == chunk_limit,
    {
        Crop { offset, shape, chunk_limit }
    }

    /// The shape of the output array.
    pub fn output_shape(&self) -> (r: Vec<u64>)
        ensures
            r@ == self.shape_view(),
    {
        let mut out: Vec<u64> = Vec::new();
        let mut i: usize = 0;
        while i < self.shape.len()
            invariant
                i <= self.shape@.len(),
                out@ =~= self.shape@.take(i as int),
            decreases self.shape@.len() - i,
        {
            out.push(self.shape[i]);
            i = i + 1;
        }
        proof {
            assert(self.shape@.take(i as int) =~= self.shape@);
        }
        out
    }

    /// The input region read for an output region: the same shape, shifted by
    /// the offset. Fails where the dimensionalities differ or a shifted end
    /// exceeds `u64::MAX`.
    pub fn input_subset(&self, output_subset: &ArraySubset) -> (r: Result<ArraySubset, SubsetError>)
        requires
            output_subset.wf(),
        ensures
            r.is_ok() <==> self.offset_view().len() == output_subset.dim() && (forall|i: int|
                0 <= i < output_subset.dim() ==> output_subset.start@[i] + self.offset_view()[i]
                    + output_subset.shape@[i] <= u64::MAX),
            r.is_ok() ==> r.unwrap().wf() && r.unwrap().shape@ == output_subset.shape@ && r.unwrap().start@
                == Seq::new(
                output_subset.dim(),
                |i: int| (output_subset.start@[i] + self.offset_view()[i]) as u64,
            ),
            r.is_err() ==> r == Err::<ArraySubset, _>(SubsetError::EndOverflow) || r == Err::<
                ArraySubset,
                _,
            >(SubsetError::IncompatibleDimensionality),
    {
        if self.offset.len() != output_subset.start.len() {
            return Err(SubsetError::IncompatibleDimensionality);
        }
        let mut start: Vec<u64> = Vec::new();
        let mut i: usize = 0;
        while i < self.offset.len()
            invariant
                output_subset.wf(),
                self.offset@.len() == output_subset.dim(),
                i <= self.offset@.len(),
                start@ =~= Seq::new(
                    i as nat,
                    |j: int| (output_subset.start@[j] + self.offset@[j]) as u64,
                ),
                forall|j: int|
                    0 <= j < i ==> #[trigger] output_subset.start@[j] + self.offset@[j]
                        + output_subset.shape@[j] <= u64::MAX,
            decreases self.offset@.len() - i,
        {
            let s = output_subset.start[i];
            let o = self.offset[i];
            if s > u64::MAX - o || s + o > u64::MAX - output_subset.shape[i] {
                return Err(SubsetError::EndOverflow);
            }
            start.push(s + o);
            i = i + 1;
        }
        let shape = copy_u64s(&output_subset.shape);
        proof {
            assert forall|j: int| 0 <= j < shape@.len() implies start@[j] + shape@[j] <= u64::MAX by {
                assert(output_subset.start@[j] + self.offset@[j] + output_subset.shape@[j] <= u64::MAX);
            }
            assert(ends_fit(start@, shape@));
            assert(start@.len() == shape@.len());
        }
        let r = ArraySubset::new_with_start_shape(start, shape);
        assert(r.is_ok());
        r
    }
}

/// Arguments of the downsample filter: the stride along each dimension, and
/// whether to take the most frequent value instead of the mean.
#[derive(Clone, Debug)]
pub struct DownsampleArguments {
    pub stride: Vec<u64>,
    pub discrete: bool,
}

/// Reduces each `stride`-sized block of the input to one output element.
#[derive(Clone, Debug)]
pub struct Downsample {
    stride: Vec<u64>,
    discrete: bool,
    chunk_limit: Option<usize>,
}

impl Downsample {
    pub closed spec fn stride_view(&self) -> Seq<u64> {
        self.stride@
    }

    pub closed spec fn discrete_view(&self) -> bool {
        self.discrete
    }

    pub closed spec fn chunk_limit_view(&self) -> Option<usize> {
        self.chunk_limit
    }

    pub fn new(stride: Vec<u64>, discrete: bool, chunk_limit: Option<usize>) -> (r: Self)
        ensures
            r.stride_view() == stride@,
            r.discrete_view() == discrete,
            r.chunk_limit_view() == chunk_limit,
    {
        Downsample { stride, discrete, chunk_limit }
    }

    /// The shape of the output array: `max(input_shape / stride, 1)` along each
    /// dimension.
    pub fn output_shape(&self, input_shape: &Vec<u64>) -> (r: Vec<u64>)
        requires
            input_shape@.len() == self.stride_view().len(),
            forall|i: int| 0 <= i < self.stride_view().len() ==> self.stride_view()[i] > 0,
        ensures
            r@.len() == input_shape@.len(),
            forall|i: int|
                0 <= i < r@.len() ==> #[trigger] r@[i] == if input_shape@[i] / self.stride_view()[i]
                    >= 1 {
                    (input_shape@[i] / self.stride_view()[i]) as u64
                } else {
                    1u64
                },
    {
        let mut out: Vec<u64> = Vec::new();
        let mut i: usize = 0;
        while i < input_shape.len()
            invariant
                input_shape@.len() == self.stride@.len(),
                forall|j: int| 0 <= j < self.stride@.len() ==> self.stride@[j] > 0,
                i <= input_shape@.len(),
                out@.len() == i,
                forall|j: int|
                    0 <= j < i ==> #[trigger] out@[j] == if input_shape@[j] / self.stride@[j] >= 1 {
                        (input_shape@[j] / self.stride@[j]) as u64
                    } else {
                        1u64
                    },
            decreases input_shape@.len() - i,
        {
            let q = input_shape[i] / self.stride[i];
            out.push(if q >= 1 {
                q
            } else {
                1
            });
            i = i + 1;
        }
        out
    }

    /// The input region read for an output region: from `start * stride` to
    /// `min(end * stride, input_shape)` along each dimension.
    pub fn input_subset(&self, input_shape: &Vec<u64>, output_subset: &ArraySubset) -> (r:
        ArraySubset)
        requires
            output_subset.wf(),
            input_shape@.len() == output_subset.dim(),
            self.stride_view().len() == output_subset.dim(),
            forall|i: int|
                0 <= i < output_subset.dim() ==> output_subset.end_spec(i) * self.stride_view()[i]
                    <= u64::MAX,
            forall|i: int|
                0 <= i < output_subset.dim() ==> output_subset.start@[i] * self.stride_view()[i]
                    <= input_shape@[i],
        ensures
            r.wf(),
            r.dim() == output_subset.dim(),
            forall|i: int|
                0 <= i < r.dim() ==> #[trigger] r.start@[i] == output_subset.start@[i]
                    * self.stride_view()[i],
            forall|i: int|
                0 <= i < r.dim() ==> #[trigger] r.end_spec(i) == if output_subset.end_spec(i)
                    * self.stride_view()[i] <= input_shape@[i] {
                    output_subset.end_spec(i) * self.stride_view()[i]
                } else {
                    input_shape@[i] as int
                },
    {
        let mut start: Vec<u64> = Vec::new();
        let mut shape: Vec<u64> = Vec::new();
        let mut i: usize = 0;
        while i < input_shape.len()
            invariant
                output_subset.wf(),
                input_shape@.len() == output_subset.dim(),
                self.stride@.len() == output_subset.dim(),
                forall|j: int|
                    0 <= j < output_subset.dim() ==> output_subset.end_spec(j) * self.stride@[j]
                        <= u64::MAX,
                forall|j: int|
                    0 <= j < output_subset.dim() ==> output_subset.start@[j] * self.stride@[j]
                        <= input_shape@[j],
                i <= input_shape@.len(),
                start@.len() == i,
                shape@.len() == i,
                forall|j: int|
                    0 <= j < i ==> #[trigger] start@[j] == output_subset.start@[j] * self.stride@[j],
                forall|j: int|
                    0 <= j < i ==> #[trigger] shape@[j] + start@[j] == if output_subset.end_spec(j)
                        * self.stride@[j] <= input_shape@[j] {
                        output_subset.end_spec(j) * self.stride@[j]
                    } else {
                        input_shape@[j] as int
                    },
            decreases input_shape@.len() - i,
        {
            let end = output_subset.start[i] + output_subset.shape[i];
            proof {
                assert(end == output_subset.end_spec(i as int));
                assert(output_subset.end_spec(i as int) * self.stride@[i as int] <= u64::MAX);
                let st = self.stride@[i as int] as int;
                assert(output_subset.start@[i as int] * st <= end * st) by (nonlinear_arith)
                    requires
                        output_subset.start@[i as int] <= end,
                        st >= 0,
                ;
            }
            let s = output_subset.start[i] * self.stride[i];
            let e_full = end * self.stride[i];
            let e = if e_full <= input_shape[i] {
                e_full
            } else {
                input_shape[i]
            };
            start.push(s);
            shape.push(e - s);
            i = i + 1;
        }
        let r = ArraySubset { start, shape };
        proof {
            assert forall|j: int| 0 <= j < r.dim() implies r.start@[j] + r.shape@[j] <= u64::MAX by {
                assert(r.shape@[j] + r.start@[j] <= input_shape@[j] || r.shape@[j] + r.start@[j]
                    == output_subset.end_spec(j) * self.stride@[j]);
            }
            assert(ends_fit(r.start@, r.shape@));
        }
        r
    }
}

/// Arguments of the gradient magnitude filter (it has none).
#[derive(Clone, Copy, Debug, Default)]
pub struct GradientMagnitudeArguments {}

/// The magnitude of the gradient of the input.
#[derive(Clone, Copy, Debug)]
pub struct GradientMagnitude {
    chunk_limit: Option<usize>,
}

impl GradientMagnitude {
    pub closed spec fn chunk_limit_view(&self) -> Option<usize> {
        self.chunk_limit
    }

    pub fn new(chunk_limit: Option<usize>) -> (r: Self)
        ensures
            r.chunk_limit_view() == chunk_limit,
    {
        GradientMagnitude { chunk_limit }
    }
}

/// Arguments of the reencode filter (it has none).
#[derive(Clone, Copy, Debug)]
pub struct ReencodeArguments {}

/// Copies the input to an output with another encoding.
#[derive(Clone, Copy, Debug)]
pub struct Reencode {
    chunk_limit: Option<usize>,
}

impl Reencode {
    pub closed spec fn chunk_limit_view(&self) -> Option<usize> {
        self.chunk_limit
    }

    pub fn new(chunk_limit: Option<usize>) -> (r: Self)
        ensures
            r.chunk_limit_view() == chunk_limit,
    {
        Reencode { chunk_limit }
    }
}

/// Arguments of the summed area table filter (it has none).
#[derive(Clone, Copy, Debug)]
pub struct SummedAreaTableArguments {}

/// The running sum of the input along every dimension.
#[derive(Clone, Copy, Debug)]
pub struct SummedAreaTable {
    chunk_limit: Option<usize>,
}

impl SummedAreaTable {
    pub closed spec fn chunk_limit_view(&self) -> Option<usize> {
        self.chunk_limit
    }

    pub fn new(chunk_limit: Option<usize>) -> (r: Self)
        ensures
            r.chunk_limit_view() == chunk_limit,
    {
        SummedAreaTable { chunk_limit }
    }
}

/// What a reencoding changes.
#[derive(Clone, Copy, Debug, PartialEq, Eq, Structural)]
pub enum ZarrReEncodingChangeType {
    /// Nothing changes.
    Unchanged,
    Metadata,
    MetadataAndChunks,
}

/// Settings that a reencoding may change; `None` keeps the input's setting.
/// The data type and fill value are held as their metadata text.
#[derive(Clone, Debug, Default)]
pub struct ZarrReencodingArgs {
    pub data_type: Option<String>,
    pub fill_value: Option<String>,
    pub separator: Option<char>,
    pub chunk_shape: Option<Vec<u64>>,
    pub shard_shape: Option<Vec<u64>>,
    pub array_to_array_codecs: Option<String>,
    pub array_to_bytes_codec: Option<String>,
    pub bytes_to_bytes_codecs: Option<String>,
    pub dimension_names: Option<Vec<String>>,
    pub attributes: Option<String>,
    pub attributes_append: Option<String>,
}

impl ZarrReencodingArgs {
    /// Some setting that changes how chunks are stored is given.
    pub open spec fn changes_chunks(&self) -> bool {
        self.data_type.is_some() || self.fill_value.is_some() || self.separator.is_some()
            || self.chunk_shape.is_some() || self.shard_shape.is_some()
            || self.array_to_array_codecs.is_some() || self.array_to_bytes_codec.is_some()
            || self.bytes_to_bytes_codecs.is_some()
    }

    /// Some setting that changes only the metadata is given.
    pub open spec fn changes_metadata(&self) -> bool {
        self.dimension_names.is_some() || self.attributes.is_some()
            || self.attributes_append.is_some()
    }

    /// What a reencoding with these settings changes: the chunks (and so the
    /// metadata) where a storage setting is given, else the metadata where a
    /// metadata setting is given, else nothing.
    pub fn change_type(&self) -> (r: ZarrReEncodingChangeType)
        ensures
            r == if self.changes_chunks() {
                ZarrReEncodingChangeType::MetadataAndChunks
            } else if self.changes_metadata() {
                ZarrReEncodingChangeType::Metadata
            } else {
                ZarrReEncodingChangeType::Unchanged
            },
    {
        if self.data_type.is_some() || self.fill_value.is_some() || self.separator.is_some()
            || self.chunk_shape.is_some() || self.shard_shape.is_some()
            || self.array_to_array_codecs.is_some() || self.array_to_bytes_codec.is_some()
            || self.bytes_to_bytes_codecs.is_some() {
            ZarrReEncodingChangeType::MetadataAndChunks
        } else if self.dimension_names.is_some() || self.attributes.is_some()
            || self.attributes_append.is_some() {
            ZarrReEncodingChangeType::Metadata
        } else {
            ZarrReEncodingChangeType::Unchanged
        }
    }
}

/// Why a filter could not run.
#[derive(Clone, Debug)]
pub enum FilterError {
    /// Reading or writing an array failed.
    ArrayError(ArrayError),
    /// The filter's parameters do not fit the input.
    InvalidParameters(String),
    /// The filter does not handle this data type.
    UnsupportedDataType(DataType),
    Other(String),
}

/// The number of chunks that fit in 80% of `available_memory` bytes when each
/// takes `memory_per_chunk` bytes; an error where not even one fits.
pub fn calculate_chunk_limit(available_memory: usize, memory_per_chunk: usize) -> (r: Result<
    usize,
    FilterError,
>)
    requires
        memory_per_chunk > 0,
    ensures
        r.is_ok() <==> (available_memory * 8 / 10) / (memory_per_chunk as int) > 0,
        r.is_ok() ==> r.unwrap() == (available_memory * 8 / 10) / (memory_per_chunk as int),
        match r {
            Err(FilterError::Other(_)) => true,
            Err(_) => false,
            Ok(_) => true,
        },
{
    let target_wide: u128 = (available_memory as u128) * 8 / 10;
    proof {
        assert(target_wide <= available_memory) by (nonlinear_arith)
            requires
                target_wide == (available_memory as int) * 8 / 10,
        ;
    }
    let target = target_wide as usize;
    let chunk_limit = target / memory_per_chunk;
    if chunk_limit == 0 {
        Err(
            FilterError::Other(
                "There is not enough available memory to process a single output chunk. Consider reducing the chunk shape (or shard shape if sharding)".to_owned(),
            ),
        )
    } else {
        Ok(chunk_limit)
    }
}

/// The row-major offset, in an array of `shape`, of the first element of line
/// number `index` along `axis` (lines are numbered row-major over the other
/// dimensions).
pub fn get_axis_start_index(axis: usize, index: u64, shape: &Vec<u64>) -> (r: u64)
    requires
        axis < shape@.len(),
        all_positive(shape@),
        num_elements(shape@) <= u64::MAX,
        index < num_elements(shape@.update(axis as int, 1u64)),
    ensures
        r == ravel(unravel(index as nat, shape@.update(axis as int, 1u64)), shape@),
{
    let mut shape1 = copy_u64s(shape);
    shape1.set(axis, 1);
    proof {
        assert(all_positive(shape1@));
        assert forall|i: int| 0 <= i < shape1@.len() implies shape1@[i] <= shape@[i] by {}
        lemma_num_elements_le(shape1@, shape@);
        lemma_unravel_in_bounds(index as nat, shape1@);
    }
    let idx = unravel_index(index, &shape1);
    ravel_index(&idx, shape)
}

} // verus!
