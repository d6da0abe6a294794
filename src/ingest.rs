//! Filling an array from raw element bytes, one block of whole chunk rows
//! along the first axis at a time.
use vstd::prelude::*;
use crate::array::{Array, ArrayError};
use crate::codec::{
    decode_elements, decode_elements_spec, encode_elements_spec, lemma_elements_round_trip,
    valid_elements, CodecOptions, Endianness,
};
use crate::array::relative;
use crate::grid::{chunk_of, local_of, lemma_chunk_of_in_grid};
use crate::index::ravel;
use crate::grid::lemma_grid_num_elements;
use crate::index::{in_bounds, num_elements};
use crate::region::lemma_num_elements_le;
use crate::subset::ArraySubset;

verus! {

impl Array {
    /// The start of block `idx`: row `idx * b` along the first axis, where `b`
    /// is the chunk extent there.
    pub open spec fn block_start(&self, idx: nat) -> Seq<u64> {
        Seq::new(
            self.grid.array_shape@.len(),
            |i: int|
                if i == 0 {
                    (idx * self.grid.chunk_shape@[0]) as u64
                } else {
                    0u64
                },
        )
    }

    /// The shape of block `idx`: up to `b` rows along the first axis (fewer at
    /// the array's end), the whole array along the others.
    pub open spec fn block_shape(&self, idx: nat) -> Seq<u64> {
        Seq::new(
            self.grid.array_shape@.len(),
            |i: int|
                if i == 0 {
                    if self.grid.chunk_shape@[0] <= self.grid.array_shape@[0] - idx
                        * self.grid.chunk_shape@[0] {
                        self.grid.chunk_shape@[0]
                    } else {
                        (self.grid.array_shape@[0] - idx * self.grid.chunk_shape@[0]) as u64
                    }
                } else {
                    self.grid.array_shape@[i]
                },
        )
    }
}

/// Decodes `bytes` as the elements of block `idx` in the byte order `endian`
/// and writes them into the array.
pub fn store_block(
    array: &mut Array,
    idx: u64,
    bytes: &Vec<u8>,
    endian: Endianness,
    options: &CodecOptions,
) -> (r: Result<(), ArrayError>)
    requires
        old(array).wf(),
        old(array).grid.array_shape@.len() >= 1,
        idx * old(array).grid.chunk_shape@[0] < old(array).grid.array_shape@[0],
    ensures
        final(array).wf(),
        final(array).grid == old(array).grid,
        final(array).data_type == old(array).data_type,
        final(array).fill_value == old(array).fill_value,
        final(array).codec == old(array).codec,
        final(array).metadata == old(array).metadata,
        bytes@.len() != num_elements(old(array).block_shape(idx as nat))
            * old(array).data_type.size_spec() ==> r == Err::<(), ArrayError>(
            ArrayError::Codec(crate::codec::CodecError::UnexpectedLength),
        ),
        forall|blk: ArraySubset|
            blk.start@ == old(array).block_start(idx as nat) && blk.shape@ == old(array).block_shape(
                idx as nat,
            ) ==> {
                let data = decode_elements_spec(bytes@, old(array).data_type, endian);
                let v = options.validate_checksums;
                &&& r.is_ok() ==> forall|h: Seq<u64>|
                    in_bounds(h, old(array).grid_shape_view()) ==> #[trigger] final(array).chunk_value(h, v)
                        == old(array).written_chunk(h, &blk, data, v)
                &&& r.is_ok() <==> bytes@.len() == num_elements(blk.shape@)
                    * old(array).data_type.size_spec() && forall|h: Seq<u64>|
                    in_bounds(h, old(array).grid_shape_view()) && old(array).chunk_overlaps(h, &blk)
                        ==> #[trigger] old(array).writable(h, &blk, data, v)
            },
{
    let ghost orig = *array;
    let d = array.grid.array_shape.len();
    let b = array.grid.chunk_shape[0];
    let first = idx * b;
    let rest = array.grid.array_shape[0] - first;
    let rows = if b <= rest {
        b
    } else {
        rest
    };
    let mut start: Vec<u64> = Vec::new();
    let mut shape: Vec<u64> = Vec::new();
    start.push(first);
    shape.push(rows);
    let mut i: usize = 1;
    while i < d
        invariant
            orig == *array,
            array.wf(),
            d == array.grid.array_shape@.len(),
            d >= 1,
            1 <= i <= d,
            idx * array.grid.chunk_shape@[0] < array.grid.array_shape@[0],
            start@ =~= array.block_start(idx as nat).take(i as int),
            shape@ =~= array.block_shape(idx as nat).take(i as int),
        decreases d - i,
    {
        start.push(0);
        shape.push(array.grid.array_shape[i]);
        i = i + 1;
    }
    proof {
        assert(start@ =~= array.block_start(idx as nat));
        assert(shape@ =~= array.block_shape(idx as nat));
    }
    let block = ArraySubset { start, shape };
    proof {
        assert(block.wf());
        assert(block.within_spec(array.grid.array_shape@));
        lemma_num_elements_le(block.shape@, array.grid.array_shape@);
    }
    let n = match block.num_elements() {
        Some(n) => n,
        None => {
            proof {
                assert(false);
            }
            return Err(ArrayError::OutOfBounds);
        },
    };
    let data = match decode_elements(bytes, n, array.data_type, endian) {
        Ok(v) => v,
        Err(e) => {
            return Err(ArrayError::Codec(e));
        },
    };
    let ghost data_spec = decode_elements_spec(bytes@, orig.data_type, endian);
    assert(data@ == data_spec);
    assert(orig == *array);
    let r = array.store_array_subset(&block, &data, options);
    proof {
        let v = options.validate_checksums;
        assert forall|blk: ArraySubset|
            blk.start@ == block.start@ && blk.shape@ == block.shape@ implies {
                &&& r.is_ok() ==> forall|h: Seq<u64>|
                    in_bounds(h, orig.grid_shape_view()) ==> #[trigger] array.chunk_value(h, v)
                        == orig.written_chunk(h, &blk, data_spec, v)
                &&& r.is_ok() <==> bytes@.len() == num_elements(blk.shape@) * orig.data_type.size_spec()
                    && forall|h: Seq<u64>|
                    in_bounds(h, orig.grid_shape_view()) && orig.chunk_overlaps(h, &blk)
                        ==> #[trigger] orig.writable(h, &blk, data_spec, v)
            } by {
            assert forall|h: Seq<u64>| true implies #[trigger] orig.written_chunk(h, &blk, data_spec, v)
                == orig.written_chunk(h, &block, data_spec, v) by {
                orig.lemma_subset_views(h, &blk, &block, data_spec, v);
            }
            assert forall|h: Seq<u64>| true implies #[trigger] orig.chunk_overlaps(h, &blk)
                == orig.chunk_overlaps(h, &block) by {
                orig.lemma_subset_views(h, &blk, &block, data_spec, v);
            }
            assert forall|h: Seq<u64>| true implies #[trigger] orig.writable(h, &blk, data_spec, v)
                == orig.writable(h, &block, data_spec, v) by {
                orig.lemma_subset_views(h, &blk, &block, data_spec, v);
            }
            if r.is_ok() {
                assert forall|h: Seq<u64>|
                    in_bounds(h, orig.grid_shape_view()) && orig.chunk_overlaps(h, &blk)
                        implies #[trigger] orig.writable(h, &blk, data_spec, v) by {
                    assert(orig.chunk_overlaps(h, &block));
                    assert(orig.writable(h, &block, data_spec, v));
                }
            }
            if bytes@.len() == num_elements(blk.shape@) * orig.data_type.size_spec() && forall|h: Seq<u64>|
                in_bounds(h, orig.grid_shape_view()) && orig.chunk_overlaps(h, &blk)
                    ==> #[trigger] orig.writable(h, &blk, data_spec, v) {
                assert forall|h: Seq<u64>|
                    in_bounds(h, orig.grid_shape_view()) && orig.chunk_overlaps(h, &block)
                        implies orig.writable(h, &block, data_spec, v) by {
                    assert(orig.chunk_overlaps(h, &blk));
                    assert(orig.writable(h, &blk, data_spec, v));
                }
            }
        }
    }
    r
}

/// Writing the stored bytes of every element of an array, in either byte
/// order, over the whole array, then reading, gives back those elements: once
/// the write has succeeded (every chunk then holds its written elements and
/// every chunk was writable), each element reads as the one at its row-major
/// position.
pub proof fn lemma_whole_array_round_trip(
    before: Array,
    after: Array,
    full: &ArraySubset,
    x: Seq<u64>,
    endian: Endianness,
    validate: bool,
)
    requires
        before.wf(),
        after.grid == before.grid,
        full.wf(),
        full.start@ == Seq::new(before.grid.array_shape@.len(), |i: int| 0u64),
        full.shape@ == before.grid.array_shape@,
        valid_elements(x, before.data_type),
        x.len() == num_elements(before.grid.array_shape@),
        forall|h: Seq<u64>|
            in_bounds(h, before.grid_shape_view()) ==> #[trigger] after.chunk_value(h, validate)
                == before.written_chunk(
                h,
                full,
                decode_elements_spec(
                    encode_elements_spec(x, before.data_type, endian),
                    before.data_type,
                    endian,
                ),
                validate,
            ),
        forall|h: Seq<u64>|
            in_bounds(h, before.grid_shape_view()) && before.chunk_overlaps(h, full)
                ==> #[trigger] before.writable(
                h,
                full,
                decode_elements_spec(
                    encode_elements_spec(x, before.data_type, endian),
                    before.data_type,
                    endian,
                ),
                validate,
            ),
    ensures
        forall|idx: Seq<u64>|
            in_bounds(idx, before.grid.array_shape@) ==> #[trigger] after.readable(idx, validate)
                && after.element_at(idx, validate) == x[ravel(idx, before.grid.array_shape@) as int],
{
    let dt = before.data_type;
    let data = decode_elements_spec(encode_elements_spec(x, dt, endian), dt, endian);
    lemma_elements_round_trip(x, dt, endian);
    assert(data == x);
    let a = before.grid.array_shape@;
    let c = before.grid.chunk_shape@;
    assert forall|idx: Seq<u64>| in_bounds(idx, a) implies #[trigger] after.readable(idx, validate)
        && after.element_at(idx, validate) == x[ravel(idx, a) as int] by {
        lemma_chunk_of_in_grid(a, c, idx);
        let g = chunk_of(idx, c);
        let u = local_of(idx, c);
        crate::shard_codec::lemma_chunk_geometry(a, c, g);
        assert forall|i: int| 0 <= i < g.len() implies {
            let lo = g[i] * c[i];
            let hi = lo + before.chunk_shape_of(g)[i];
            #[trigger] full.start@[i] < hi && lo < full.end_spec(i) && full.start@[i] < full.end_spec(i)
        } by {
            assert(idx[i] == g[i] * c[i] + u[i]);
        }
        assert(before.chunk_overlaps(g, full));
        assert(before.writable(g, full, data, validate));
        crate::index::lemma_ravel_bound(u, before.chunk_shape_of(g));
        assert(before.readable(idx, validate));
        assert(full.contains_spec(idx));
        before.lemma_write_then_read(after, full, data, validate, idx);
        assert(relative(idx, full.start@) =~= idx);
    }
}

} // verus!
