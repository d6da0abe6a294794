//! Copying an array into another with a different encoding, and choosing the
//! encoding of an array from its chunk and shard shapes.
use vstd::prelude::*;
use crate::array::{Array, ArrayError, ChunkCodec};
use crate::grid::ceil_div;
use crate::shard_codec::ShardingCodec;
use crate::sharding::{ShardIndexCodec, ShardingIndexLocation};
use crate::index::copy_u64s;
use crate::codec::{
    valid_elements, convert_fill_value, integer_value, CodecChain, CodecOptions, DataType,
    Endianness,
};
use crate::grid::{chunk_of, local_of, grid_shape_spec, grid_wf, lemma_chunk_of_in_grid, lemma_grid_num_elements};
use crate::index::{
    in_bounds, num_elements, ravel, unravel, checked_num_elements, unravel_index,
    lemma_ravel_bound, lemma_ravel_unravel, lemma_unravel_ravel, lemma_ravel_injective,
};
use crate::region::{region_index, lemma_region_index_in_bounds};
use crate::shard_codec::{inner_start, lemma_chunk_local, lemma_chunk_geometry};
use crate::subset::ArraySubset;

verus! {

/// `n * size`, or `u64::MAX` where the product does not fit.
pub open spec fn saturating_bytes(n: nat, size: nat) -> u64 {
    if n * size <= u64::MAX {
        (n * size) as u64
    } else {
        u64::MAX
    }
}

impl Array {
    /// The elements that chunk `g` of this array holds as a copy of `src`:
    /// those of the same region of `src`.
    pub open spec fn copied_chunk(&self, src: &Array, g: Seq<u64>, validate: bool) -> Seq<u64> {
        src.subset_elements(inner_start(self.grid.chunk_shape@, g), self.chunk_shape_of(g), validate)
    }

    /// Elements `elems` can be stored as chunk `g`: always for a plain codec,
    /// and where they fit a shard for a sharded one.
    pub open spec fn chunk_fits(&self, g: Seq<u64>, elems: Seq<u64>) -> bool {
        match self.codec {
            ChunkCodec::Plain(_) => true,
            ChunkCodec::Sharded(sc) => sc.fits(
                elems,
                self.chunk_shape_of(g),
                self.data_type,
                self.fill_value,
            ),
        }
    }
}

/// Whether two vectors hold the same elements.
fn same_elements(a: &Vec<u64>, b: &Vec<u64>) -> (r: bool)
    ensures
        r == (a@ == b@),
{
    if a.len() != b.len() {
        return false;
    }
    let mut i: usize = 0;
    while i < a.len()
        invariant
            a@.len() == b@.len(),
            i <= a@.len(),
            forall|k: int| 0 <= k < i ==> #[trigger] a@[k] == b@[k],
        decreases a@.len() - i,
    {
        if a[i] != b[i] {
            return false;
        }
        i = i + 1;
    }
    proof {
        assert(a@ =~= b@);
    }
    true
}

/// Copies `array_in` into `array_out`, chunk by chunk of the output: each
/// output chunk is read from the same region of the input and stored. With
/// `validate`, each stored chunk is read back and compared. A write shape, if
/// given, must have the arrays' dimensionality; the copy then still proceeds in
/// whole output chunks. Stops at the first error; chunks copied before it stay
/// written. Returns the number of bytes of elements copied.
#[verifier::spinoff_prover]
#[verifier::rlimit(80)]
pub fn reencode(
    array_in: &Array,
    array_out: &mut Array,
    write_shape: Option<Vec<u64>>,
    validate: bool,
    options: &CodecOptions,
) -> (r: Result<u64, ArrayError>)
    requires
        array_in.wf(),
        old(array_out).wf(),
        array_in.data_type == old(array_out).data_type,
    ensures
        final(array_out).wf(),
        final(array_out).grid == old(array_out).grid,
        final(array_out).data_type == old(array_out).data_type,
        final(array_out).fill_value == old(array_out).fill_value,
        final(array_out).codec == old(array_out).codec,
        final(array_out).metadata == old(array_out).metadata,
        (array_in.grid.array_shape@ != old(array_out).grid.array_shape@ || (write_shape is Some
            && write_shape->Some_0@.len() != old(array_out).grid.array_shape@.len())) ==> r
            == Err::<u64, ArrayError>(ArrayError::IncompatibleConfiguration)
            && final(array_out).store@ == old(array_out).store@,
        r.is_ok() ==> forall|idx: Seq<u64>|
            in_bounds(idx, old(array_out).grid.array_shape@) ==> #[trigger] final(array_out).readable(idx, options.validate_checksums) && final(array_out).element_at(
                idx,
                options.validate_checksums,
            ) == array_in.element_at(idx, options.validate_checksums),
        r.is_ok() ==> forall|idx: Seq<u64>|
            in_bounds(idx, array_in.grid.array_shape@) ==> #[trigger] array_in.readable(
                idx,
                options.validate_checksums,
            ),
        r.is_ok() ==> r.unwrap() == saturating_bytes(
            num_elements(old(array_out).grid.array_shape@),
            old(array_out).data_type.size_spec(),
        ),
        array_in.grid.array_shape@ == old(array_out).grid.array_shape@ && !(write_shape is Some
            && write_shape->Some_0@.len() != old(array_out).grid.array_shape@.len()) && (forall|
            idx: Seq<u64>,
        |
            in_bounds(idx, array_in.grid.array_shape@) ==> #[trigger] array_in.readable(
                idx,
                options.validate_checksums,
            )) && (forall|g: Seq<u64>|
            in_bounds(g, old(array_out).grid_shape_view()) ==> #[trigger] old(array_out).chunk_fits(g, old(array_out).copied_chunk(array_in, g, options.validate_checksums)))
            ==> r.is_ok(),
{
    let ghost v = options.validate_checksums;
    let ghost orig = *array_out;
    if !same_elements(&array_in.grid.array_shape, &array_out.grid.array_shape) {
        return Err(ArrayError::IncompatibleConfiguration);
    }
    match &write_shape {
        Some(ws) => {
            if ws.len() != array_out.grid.array_shape.len() {
                return Err(ArrayError::IncompatibleConfiguration);
            }
        },
        None => {},
    }
    let ghost owed = (forall|idx: Seq<u64>|
        in_bounds(idx, array_in.grid.array_shape@) ==> #[trigger] array_in.readable(idx, v))
        && (forall|g: Seq<u64>|
        in_bounds(g, orig.grid_shape_view()) ==> #[trigger] orig.chunk_fits(
            g,
            orig.copied_chunk(array_in, g, v),
        ));
    let gshape = array_out.grid.grid_shape();
    proof {
        lemma_grid_num_elements(orig.grid.array_shape@, orig.grid.chunk_shape@);
    }
    let n = match checked_num_elements(&gshape) {
        Some(n) => n,
        None => {
            proof {
                assert(false);
            }
            return Err(ArrayError::IncompatibleConfiguration);
        },
    };
    let mut c: u64 = 0;
    while c < n
        invariant
            array_in.wf(),
            array_out.wf(),
            orig.wf(),
            orig == *old(array_out),
            array_in.data_type == orig.data_type,
            array_in.grid.array_shape@ == orig.grid.array_shape@,
            array_out.grid == orig.grid,
            array_out.data_type == orig.data_type,
            array_out.fill_value == orig.fill_value,
            array_out.codec == orig.codec,
            array_out.metadata == orig.metadata,
            v == options.validate_checksums,
            owed == ((forall|idx: Seq<u64>|
                in_bounds(idx, array_in.grid.array_shape@) ==> #[trigger] array_in.readable(idx, v))
                && (forall|g: Seq<u64>|
                in_bounds(g, orig.grid_shape_view()) ==> #[trigger] orig.chunk_fits(
                    g,
                    orig.copied_chunk(array_in, g, v),
                ))),
            gshape@ == orig.grid_shape_view(),
            crate::index::all_positive(gshape@),
            num_elements(gshape@) <= num_elements(orig.grid.array_shape@),
            !(write_shape is Some && write_shape->Some_0@.len() != orig.grid.array_shape@.len()),
            n == num_elements(gshape@),
            c <= n,
            forall|idx: Seq<u64>|
                in_bounds(idx, orig.grid.array_shape@) && ravel(
                    chunk_of(idx, orig.grid.chunk_shape@),
                    gshape@,
                ) < c ==> #[trigger] array_in.readable(idx, v),
            forall|h: Seq<u64>|
                in_bounds(h, gshape@) && ravel(h, gshape@) < c ==> #[trigger] array_out.chunk_value(
                    h,
                    v,
                ) == Some(orig.copied_chunk(array_in, h, v)),
        decreases n - c,
    {
        let g = unravel_index(c, &gshape);
        proof {
            lemma_ravel_unravel(c as nat, gshape@);
        }
        let region = match array_out.grid.chunk_subset_bounded(&g) {
            Ok(s) => s,
            Err(_) => {
                proof {
                    assert(false);
                }
                return Err(ArrayError::OutOfBounds);
            },
        };
        proof {
            assert(region.start@ =~= inner_start(orig.grid.chunk_shape@, g@));
        }
        let data = match array_in.retrieve_array_subset(&region, options) {
            Ok(d) => d,
            Err(e) => {
                proof {
                    if owed {
                        assert forall|k: nat| k < num_elements(region.shape@) implies #[trigger] array_in.readable(
                            region_index(region.start@, region.shape@, k),
                            v,
                        ) by {
                            lemma_chunk_geometry(orig.grid.array_shape@, orig.grid.chunk_shape@, g@);
                            lemma_region_index_in_bounds(
                                orig.grid.array_shape@,
                                region.start@,
                                region.shape@,
                                k,
                            );
                        }
                    }
                }
                return Err(e);
            },
        };
        proof {
            let a = orig.grid.array_shape@;
            let cc = orig.grid.chunk_shape@;
            assert forall|idx: Seq<u64>|
                in_bounds(idx, a) && ravel(chunk_of(idx, cc), gshape@) < c + 1 implies #[trigger] array_in.readable(
                idx,
                v,
            ) by {
                if ravel(chunk_of(idx, cc), gshape@) == c {
                    lemma_chunk_of_in_grid(a, cc, idx);
                    lemma_ravel_injective(chunk_of(idx, cc), g@, gshape@);
                    let u = local_of(idx, cc);
                    let cs = orig.chunk_shape_of(g@);
                    lemma_chunk_local(a, cc, g@, u);
                    lemma_ravel_bound(u, cs);
                    assert(Seq::new(a.len(), |i: int| (g@[i] * cc[i] + u[i]) as u64) =~= idx);
                    assert(array_in.readable(region_index(region.start@, region.shape@, ravel(u, cs)), v));
                }
            }
        }
        let ghost mid = *array_out;
        match array_out.store_chunk(&g, &data) {
            Ok(()) => {},
            Err(e) => {
                proof {
                    assert(!orig.chunk_fits(g@, orig.copied_chunk(array_in, g@, v)));
                }
                return Err(e);
            },
        }
        if validate {
            match array_out.retrieve_chunk(&g, options) {
                Ok(back) => {
                    if !same_elements(&back, &data) {
                        proof {
                            assert(false);
                        }
                        return Err(ArrayError::Codec(crate::codec::CodecError::UnexpectedLength));
                    }
                },
                Err(e) => {
                    proof {
                        assert(false);
                    }
                    return Err(e);
                },
            }
        }
        proof {
            assert forall|h: Seq<u64>|
                in_bounds(h, gshape@) && ravel(h, gshape@) < c + 1 implies #[trigger] array_out.chunk_value(
                h,
                v,
            ) == Some(orig.copied_chunk(array_in, h, v)) by {
                if h != g@ {
                    assert(array_out.chunk_value(h, v) == mid.chunk_value(h, v));
                    if ravel(h, gshape@) == c {
                        lemma_ravel_injective(h, g@, gshape@);
                    }
                }
            }
        }
        c = c + 1;
    }
    proof {
        assert forall|idx: Seq<u64>| in_bounds(idx, array_in.grid.array_shape@) implies #[trigger] array_in.readable(
            idx,
            v,
        ) by {
            lemma_chunk_of_in_grid(orig.grid.array_shape@, orig.grid.chunk_shape@, idx);
            lemma_ravel_bound(chunk_of(idx, orig.grid.chunk_shape@), gshape@);
        }
        assert forall|idx: Seq<u64>| in_bounds(idx, orig.grid.array_shape@) implies #[trigger] array_out.readable(
            idx,
            v,
        ) && array_out.element_at(idx, v) == array_in.element_at(idx, v) by {
            let a = orig.grid.array_shape@;
            let cc = orig.grid.chunk_shape@;
            lemma_chunk_of_in_grid(a, cc, idx);
            let g = chunk_of(idx, cc);
            let u = local_of(idx, cc);
            let cs = orig.chunk_shape_of(g);
            lemma_ravel_bound(g, gshape@);
            lemma_chunk_local(a, cc, g, u);
            lemma_ravel_bound(u, cs);
            assert(Seq::new(a.len(), |i: int| (g[i] * cc[i] + u[i]) as u64) =~= idx);
        }
    }
    let total = match checked_num_elements(&array_out.grid.array_shape) {
        Some(t) => t,
        None => {
            proof {
                assert(false);
            }
            return Err(ArrayError::IncompatibleConfiguration);
        },
    };
    let size = array_out.data_type.size() as u64;
    let bytes = match total.checked_mul(size) {
        Some(b) => b,
        None => u64::MAX,
    };
    Ok(bytes)
}

/// A chunk extent: the array extent where zero is given.
pub open spec fn effective_extent(a: u64, c: u64) -> u64 {
    if c == 0 {
        a
    } else {
        c
    }
}

/// A shard extent: the given extent (the array extent where zero is given)
/// capped at the array extent `a`, and rounded up to a multiple of the chunk
/// extent `c`.
pub open spec fn shard_extent(a: u64, s: u64, c: u64) -> nat {
    let m = if s == 0 || s > a {
        a
    } else {
        s
    };
    if c == 0 {
        0
    } else {
        ceil_div(m as nat, c as nat) * (c as nat)
    }
}

/// The chunk shape that `chunk_shape` asks for in an array of `a`.
pub open spec fn chunk_block_shape(a: Seq<u64>, chunk_shape: Seq<u64>) -> Seq<u64> {
    Seq::new(a.len(), |i: int| effective_extent(a[i], chunk_shape[i]))
}

/// The shard shape that `shard_shape` asks for in an array of `a` with inner
/// chunks from `chunk_shape`.
pub open spec fn shard_block_shape(a: Seq<u64>, chunk_shape: Seq<u64>, shard_shape: Seq<u64>) -> Seq<
    u64,
> {
    Seq::new(
        a.len(),
        |i: int| shard_extent(a[i], shard_shape[i], effective_extent(a[i], chunk_shape[i])) as u64,
    )
}

pub open spec fn opt_shape(o: Option<Vec<u64>>) -> Option<Seq<u64>> {
    match o {
        Some(v) => Some(v@),
        None => None,
    }
}

/// The shapes have the array's dimensionality and every shard extent fits `u64`.
pub open spec fn encoding_fits(a: Seq<u64>, chunk_shape: Seq<u64>, shard_shape: Option<Seq<u64>>) -> bool {
    &&& chunk_shape.len() == a.len()
    &&& match shard_shape {
        None => true,
        Some(ss) => ss.len() == a.len() && forall|i: int|
            0 <= i < a.len() ==> #[trigger] shard_extent(
                a[i],
                ss[i],
                effective_extent(a[i], chunk_shape[i]),
            ) <= u64::MAX,
    }
}

/// The checksummed index codec at the end of a shard.
pub open spec fn default_index_codec() -> ShardIndexCodec {
    ShardIndexCodec {
        index_chain: CodecChain { endian: Endianness::Little, checksum: true },
        location: ShardingIndexLocation::End,
    }
}

/// `r` is the encoding asked for: the chunk shape and a plain codec without a
/// shard shape; the shard shape and a sharding codec (inner chunks of the
/// chunk shape, a checksummed index at the end, fill-value inner chunks left
/// out) with one; an error where the shapes do not fit.
pub open spec fn encoding_result(
    a: Seq<u64>,
    chunk_shape: Seq<u64>,
    shard_shape: Option<Seq<u64>>,
    chain: CodecChain,
    r: Result<(Vec<u64>, ChunkCodec), ArrayError>,
) -> bool {
    &&& r.is_ok() == encoding_fits(a, chunk_shape, shard_shape)
    &&& r.is_err() ==> r == Err::<(Vec<u64>, ChunkCodec), ArrayError>(
        ArrayError::IncompatibleConfiguration,
    )
    &&& r.is_ok() ==> match shard_shape {
        None => r.unwrap().0@ == chunk_block_shape(a, chunk_shape) && r.unwrap().1
            == ChunkCodec::Plain(chain),
        Some(ss) => r.unwrap().0@ == shard_block_shape(a, chunk_shape, ss) && match r.unwrap().1 {
            ChunkCodec::Sharded(sc) => {
                &&& sc.inner_shape@ == chunk_block_shape(a, chunk_shape)
                &&& sc.inner_chain == chain
                &&& sc.index_codec == default_index_codec()
                &&& sc.omit_fill_chunks
            },
            ChunkCodec::Plain(_) => false,
        },
    }
}

/// `shard_extent(a, s, c)`, or `None` where it exceeds `u64::MAX`.
fn shard_extent_of(a: u64, s: u64, c: u64) -> (r: Option<u64>)
    ensures
        r.is_some() <==> shard_extent(a, s, c) <= u64::MAX,
        r.is_some() ==> r.unwrap() == shard_extent(a, s, c),
{
    let m = if s == 0 || s > a {
        a
    } else {
        s
    };
    if c == 0 {
        return Some(0);
    }
    let q = if m % c == 0 {
        m / c
    } else {
        proof {
            crate::grid::lemma_ceil_div_bound(m as nat, c as nat);
        }
        m / c + 1
    };
    q.checked_mul(c)
}

/// The chunk (or shard) shape and codec of an array of `array_shape` with
/// chunks of `chunk_shape` and, where given, shards of `shard_shape`: a zero
/// extent means the array extent, and a shard extent is capped at the array
/// extent and rounded up to a multiple of the chunk extent.
pub fn encoding_for(
    array_shape: &Vec<u64>,
    chunk_shape: &Vec<u64>,
    shard_shape: Option<Vec<u64>>,
    inner_chain: CodecChain,
) -> (r: Result<(Vec<u64>, ChunkCodec), ArrayError>)
    ensures
        encoding_result(array_shape@, chunk_shape@, opt_shape(shard_shape), inner_chain, r),
{
    if chunk_shape.len() != array_shape.len() {
        return Err(ArrayError::IncompatibleConfiguration);
    }
    let mut chunks: Vec<u64> = Vec::new();
    let mut i: usize = 0;
    while i < array_shape.len()
        invariant
            chunk_shape@.len() == array_shape@.len(),
            i <= array_shape@.len(),
            chunks@ =~= chunk_block_shape(array_shape@, chunk_shape@).take(i as int),
        decreases array_shape@.len() - i,
    {
        chunks.push(if chunk_shape[i] == 0 {
            array_shape[i]
        } else {
            chunk_shape[i]
        });
        i = i + 1;
    }
    proof {
        assert(chunk_block_shape(array_shape@, chunk_shape@).take(i as int) =~= chunk_block_shape(
            array_shape@,
            chunk_shape@,
        ));
    }
    if shard_shape.is_none() {
        let r = Ok((chunks, ChunkCodec::Plain(inner_chain)));
        proof {
            assert(encoding_fits(array_shape@, chunk_shape@, None));
        }
        return r;
    }
    let ss = shard_shape.unwrap();
    {
        {
            let ghost sv = ss@;
            assert(opt_shape(shard_shape) == Some(sv));
            if ss.len() != array_shape.len() {
                return Err(ArrayError::IncompatibleConfiguration);
            }
            let mut shards: Vec<u64> = Vec::new();
            let mut i: usize = 0;
            while i < array_shape.len()
                invariant
                    chunk_shape@.len() == array_shape@.len(),
                    ss@.len() == array_shape@.len(),
                    sv == ss@,
                    opt_shape(shard_shape) == Some(sv),
                    chunks@ == chunk_block_shape(array_shape@, chunk_shape@),
                    i <= array_shape@.len(),
                    shards@.len() == i,
                    forall|j: int|
                        0 <= j < i ==> #[trigger] shards@[j] == shard_extent(
                            array_shape@[j],
                            ss@[j],
                            chunks@[j],
                        ) && shard_extent(array_shape@[j], ss@[j], chunks@[j]) <= u64::MAX,
                decreases array_shape@.len() - i,
            {
                let e = match shard_extent_of(array_shape[i], ss[i], chunks[i]) {
                    Some(e) => e,
                    None => {
                        proof {
                            assert(chunks@[i as int] == effective_extent(
                                array_shape@[i as int],
                                chunk_shape@[i as int],
                            ));
                            assert(shard_extent(array_shape@[i as int], ss@[i as int], chunks@[i as int])
                                > u64::MAX);
                            assert(!encoding_fits(array_shape@, chunk_shape@, Some(sv)));
                        }
                        return Err(ArrayError::IncompatibleConfiguration);
                    },
                };
                let ghost before = shards@;
                shards.push(e);
                proof {
                    assert forall|j: int| 0 <= j < i implies #[trigger] shards@[j] == before[j] by {}
                }
                i = i + 1;
            }
            proof {
                assert forall|j: int| 0 <= j < array_shape@.len() implies #[trigger] shard_extent(
                    array_shape@[j],
                    sv[j],
                    effective_extent(array_shape@[j], chunk_shape@[j]),
                ) <= u64::MAX by {
                    assert(shards@[j] == shard_extent(array_shape@[j], ss@[j], chunks@[j]));
                    assert(chunks@[j] == effective_extent(array_shape@[j], chunk_shape@[j]));
                }
                assert(encoding_fits(array_shape@, chunk_shape@, Some(sv)));
                assert(shards@ =~= shard_block_shape(array_shape@, chunk_shape@, ss@));
            }
            let codec = ShardingCodec {
                inner_shape: chunks,
                inner_chain,
                index_codec: ShardIndexCodec {
                    index_chain: CodecChain { endian: Endianness::Little, checksum: true },
                    location: ShardingIndexLocation::End,
                },
                omit_fill_chunks: true,
            };
            Ok((shards, ChunkCodec::Sharded(codec)))
        }
    }
}

impl Array {
    /// The chunk shape this array's encoding uses: the inner chunk shape of a
    /// sharded array, else its chunk shape.
    pub open spec fn current_chunk_shape(&self) -> Seq<u64> {
        match self.codec {
            ChunkCodec::Sharded(sc) => sc.inner_shape@,
            ChunkCodec::Plain(_) => self.grid.chunk_shape@,
        }
    }

    /// The shard shape of a sharded array.
    pub open spec fn current_shard_shape(&self) -> Option<Seq<u64>> {
        match self.codec {
            ChunkCodec::Sharded(_) => Some(self.grid.chunk_shape@),
            ChunkCodec::Plain(_) => None,
        }
    }

    /// The chain that encodes this array's chunks (or inner chunks).
    pub open spec fn current_chain(&self) -> CodecChain {
        match self.codec {
            ChunkCodec::Sharded(sc) => sc.inner_chain,
            ChunkCodec::Plain(chain) => chain,
        }
    }
}

/// An existing shard extent `s` rounded up to a multiple of the chunk
/// extent `c`.
pub open spec fn kept_extent(s: u64, c: u64) -> nat {
    if c == 0 {
        0
    } else {
        ceil_div(s as nat, c as nat) * (c as nat)
    }
}

/// The shapes have the array's dimensionality and every kept shard extent
/// fits `u64`.
pub open spec fn kept_fits(a: Seq<u64>, chunk_shape: Seq<u64>, shards: Seq<u64>) -> bool {
    &&& chunk_shape.len() == a.len()
    &&& shards.len() == a.len()
    &&& forall|i: int|
        0 <= i < a.len() ==> #[trigger] kept_extent(shards[i], chunk_block_shape(a, chunk_shape)[i])
            <= u64::MAX
}

/// `r` keeps the existing shard shape `shards` (each extent rounded up to a
/// multiple of the chunk extent) with inner chunks from `chunk_shape`: the
/// rounded shard shape and a sharding codec with a checksummed index at the
/// end, or an error where the shapes do not fit.
pub open spec fn kept_shard_result(
    a: Seq<u64>,
    chunk_shape: Seq<u64>,
    shards: Seq<u64>,
    chain: CodecChain,
    r: Result<(Vec<u64>, ChunkCodec), ArrayError>,
) -> bool {
    let c = chunk_block_shape(a, chunk_shape);
    &&& r.is_ok() == kept_fits(a, chunk_shape, shards)
    &&& r.is_err() ==> r == Err::<(Vec<u64>, ChunkCodec), ArrayError>(
        ArrayError::IncompatibleConfiguration,
    )
    &&& r.is_ok() ==> r.unwrap().0@ == Seq::new(a.len(), |i: int| kept_extent(shards[i], c[i]) as u64)
        && match r.unwrap().1 {
        ChunkCodec::Sharded(sc) => {
            &&& sc.inner_shape@ == c
            &&& sc.inner_chain == chain
            &&& sc.index_codec == default_index_codec()
            &&& sc.omit_fill_chunks
        },
        ChunkCodec::Plain(_) => false,
    }
}

/// `kept_extent(s, c)`, or `None` where it exceeds `u64::MAX`.
fn kept_extent_of(s: u64, c: u64) -> (r: Option<u64>)
    ensures
        r.is_some() <==> kept_extent(s, c) <= u64::MAX,
        r.is_some() ==> r.unwrap() == kept_extent(s, c),
{
    if c == 0 {
        return Some(0);
    }
    let q = if s % c == 0 {
        s / c
    } else {
        proof {
            if s == 0 {
                assert(0u64 % c == 0);
            }
            crate::grid::lemma_ceil_div_bound(s as nat, c as nat);
        }
        s / c + 1
    };
    q.checked_mul(c)
}

/// The encoding for a copy of `array`: each setting given overrides the
/// array's own (its chunk or inner chunk shape, its shard shape, its chain).
/// A given shard shape follows `encoding_for`; without one, a sharded array
/// keeps its own shard shape, rounded up to a multiple of the chunk extent.
pub fn reencode_encoding(
    array: &Array,
    chunk_shape: Option<Vec<u64>>,
    shard_shape: Option<Vec<u64>>,
    inner_chain: Option<CodecChain>,
) -> (r: Result<(Vec<u64>, ChunkCodec), ArrayError>)
    ensures
        ({
            let c = if chunk_shape.is_some() {
                chunk_shape->Some_0@
            } else {
                array.current_chunk_shape()
            };
            let chain = if inner_chain.is_some() {
                inner_chain->Some_0
            } else {
                array.current_chain()
            };
            if shard_shape.is_none() && array.codec is Sharded {
                kept_shard_result(array.grid.array_shape@, c, array.grid.chunk_shape@, chain, r)
            } else {
                encoding_result(array.grid.array_shape@, c, opt_shape(shard_shape), chain, r)
            }
        }),
{
    let ghost chosen = if chunk_shape.is_some() {
        chunk_shape->Some_0@
    } else {
        array.current_chunk_shape()
    };
    let chunks = if chunk_shape.is_some() {
        chunk_shape.unwrap()
    } else {
        match &array.codec {
            ChunkCodec::Sharded(sc) => copy_u64s(&sc.inner_shape),
            ChunkCodec::Plain(_) => copy_u64s(&array.grid.chunk_shape),
        }
    };
    assert(chunks@ == chosen);
    let chain = if inner_chain.is_some() {
        inner_chain.unwrap()
    } else {
        match &array.codec {
            ChunkCodec::Sharded(sc) => sc.inner_chain,
            ChunkCodec::Plain(ch) => *ch,
        }
    };
    assert(chain == (if inner_chain.is_some() {
        inner_chain->Some_0
    } else {
        array.current_chain()
    }));
    let keep = shard_shape.is_none() && match &array.codec {
        ChunkCodec::Sharded(_) => true,
        ChunkCodec::Plain(_) => false,
    };
    if !keep {
        return encoding_for(&array.grid.array_shape, &chunks, shard_shape, chain);
    }
    let a = &array.grid.array_shape;
    let existing = &array.grid.chunk_shape;
    if chunks.len() != a.len() || existing.len() != a.len() {
        assert(!kept_fits(array.grid.array_shape@, chosen, array.grid.chunk_shape@));
        return Err(ArrayError::IncompatibleConfiguration);
    }
    let mut inner: Vec<u64> = Vec::new();
    let mut shards: Vec<u64> = Vec::new();
    let mut i: usize = 0;
    while i < a.len()
        invariant
            chunks@.len() == a@.len(),
            existing@.len() == a@.len(),
            chunks@ == chosen,
            chosen == (if chunk_shape.is_some() {
                chunk_shape->Some_0@
            } else {
                array.current_chunk_shape()
            }),
            a@ == array.grid.array_shape@,
            existing@ == array.grid.chunk_shape@,
            shard_shape.is_none(),
            array.codec is Sharded,
            chain == (if inner_chain.is_some() {
                inner_chain->Some_0
            } else {
                array.current_chain()
            }),
            i <= a@.len(),
            inner@ =~= chunk_block_shape(a@, chunks@).take(i as int),
            shards@.len() == i,
            forall|j: int|
                0 <= j < i ==> #[trigger] shards@[j] == kept_extent(
                    existing@[j],
                    chunk_block_shape(a@, chunks@)[j],
                ) && kept_extent(existing@[j], chunk_block_shape(a@, chunks@)[j]) <= u64::MAX,
        decreases a@.len() - i,
    {
        let c = if chunks[i] == 0 {
            a[i]
        } else {
            chunks[i]
        };
        let e = match kept_extent_of(existing[i], c) {
            Some(e) => e,
            None => {
                proof {
                    assert(c == chunk_block_shape(a@, chunks@)[i as int]);
                    assert(kept_extent(existing@[i as int], chunk_block_shape(a@, chunks@)[i as int])
                        > u64::MAX);
                    assert(kept_extent(
                        array.grid.chunk_shape@[i as int],
                        chunk_block_shape(array.grid.array_shape@, chosen)[i as int],
                    ) > u64::MAX);
                    assert(!kept_fits(array.grid.array_shape@, chosen, array.grid.chunk_shape@));
                }
                return Err(ArrayError::IncompatibleConfiguration);
            },
        };
        assert(c == chunk_block_shape(a@, chunks@)[i as int]);
        inner.push(c);
        let ghost before = shards@;
        shards.push(e);
        proof {
            assert forall|j: int| 0 <= j < i implies #[trigger] shards@[j] == before[j] by {}
            assert(shards@[i as int] == kept_extent(existing@[i as int], chunk_block_shape(a@, chunks@)[i as int]));
            assert(kept_extent(existing@[i as int], chunk_block_shape(a@, chunks@)[i as int]) <= u64::MAX);
            assert forall|j: int| 0 <= j <= i implies #[trigger] shards@[j] == kept_extent(
                existing@[j],
                chunk_block_shape(a@, chunks@)[j],
            ) && kept_extent(existing@[j], chunk_block_shape(a@, chunks@)[j]) <= u64::MAX by {
                if j < i {
                    assert(before[j] == shards@[j]);
                }
            }
        }
        i = i + 1;
    }
    proof {
        assert forall|j: int| 0 <= j < array.grid.array_shape@.len() implies #[trigger] kept_extent(
            array.grid.chunk_shape@[j],
            chunk_block_shape(array.grid.array_shape@, chosen)[j],
        ) <= u64::MAX by {
            assert(shards@[j] == kept_extent(existing@[j], chunk_block_shape(a@, chunks@)[j]));
        }
        assert(kept_fits(array.grid.array_shape@, chosen, array.grid.chunk_shape@));
        assert(inner@ =~= chunk_block_shape(a@, chunks@));
        assert(shards@ =~= Seq::new(
            a@.len(),
            |j: int| kept_extent(existing@[j], chunk_block_shape(a@, chunks@)[j]) as u64,
        ));
    }
    let codec = ShardingCodec {
        inner_shape: inner,
        inner_chain: chain,
        index_codec: ShardIndexCodec {
            index_chain: CodecChain { endian: Endianness::Little, checksum: true },
            location: ShardingIndexLocation::End,
        },
        omit_fill_chunks: true,
    };
    Ok((shards, ChunkCodec::Sharded(codec)))
}

/// Whether two arrays hold the same elements: `Ok(false)` where their shapes
/// or data types differ, else whether every element is equal. Fails with a
/// codec error where a chunk of either array does not decode.
pub fn arrays_match(a: &Array, b: &Array, options: &CodecOptions) -> (r: Result<bool, ArrayError>)
    requires
        a.wf(),
        b.wf(),
    ensures
        (a.grid.array_shape@ != b.grid.array_shape@ || a.data_type != b.data_type) ==> r == Ok::<
            bool,
            ArrayError,
        >(false),
        a.grid.array_shape@ == b.grid.array_shape@ && a.data_type == b.data_type && r.is_ok() ==> (
        r.unwrap() <==> forall|idx: Seq<u64>|
            in_bounds(idx, a.grid.array_shape@) ==> #[trigger] a.element_at(
                idx,
                options.validate_checksums,
            ) == b.element_at(idx, options.validate_checksums)),
        a.grid.array_shape@ == b.grid.array_shape@ && a.data_type == b.data_type && r.is_ok() ==> forall|
            idx: Seq<u64>,
        |
            in_bounds(idx, a.grid.array_shape@) ==> #[trigger] a.readable(
                idx,
                options.validate_checksums,
            ) && b.readable(idx, options.validate_checksums),
        (forall|idx: Seq<u64>|
            in_bounds(idx, a.grid.array_shape@) ==> #[trigger] a.readable(
                idx,
                options.validate_checksums,
            )) && (forall|idx: Seq<u64>|
            in_bounds(idx, b.grid.array_shape@) ==> #[trigger] b.readable(
                idx,
                options.validate_checksums,
            )) ==> r.is_ok(),
{
    let ghost v = options.validate_checksums;
    if !same_elements(&a.grid.array_shape, &b.grid.array_shape) || a.data_type != b.data_type {
        return Ok(false);
    }
    let all = ArraySubset::new_with_shape(copy_u64s(&a.grid.array_shape));
    let x = match a.retrieve_array_subset(&all, options) {
        Ok(x) => x,
        Err(e) => {
            return Err(e);
        },
    };
    let y = match b.retrieve_array_subset(&all, options) {
        Ok(y) => y,
        Err(e) => {
            return Err(e);
        },
    };
    let same = same_elements(&x, &y);
    proof {
        let sh = a.grid.array_shape@;
        crate::grid::lemma_grid_num_elements(sh, a.grid.chunk_shape@);
        assert forall|idx: Seq<u64>| in_bounds(idx, sh) implies idx == region_index(
            all.start@,
            all.shape@,
            ravel(idx, sh),
        ) && ravel(idx, sh) < num_elements(sh) by {
            lemma_unravel_ravel(idx, sh);
            lemma_ravel_bound(idx, sh);
            assert(region_index(all.start@, all.shape@, ravel(idx, sh)) =~= idx);
        }
        assert forall|idx: Seq<u64>| in_bounds(idx, sh) implies #[trigger] a.readable(idx, v)
            && b.readable(idx, v) by {
            assert(a.readable(region_index(all.start@, all.shape@, ravel(idx, sh)), v));
            assert(b.readable(region_index(all.start@, all.shape@, ravel(idx, sh)), v));
        }
        if same {
            assert forall|idx: Seq<u64>| in_bounds(idx, sh) implies #[trigger] a.element_at(idx, v)
                == b.element_at(idx, v) by {
                assert(x@[ravel(idx, sh) as int] == y@[ravel(idx, sh) as int]);
            }
        } else {
            assert(x@.len() == y@.len());
            assert(x@ !~= y@);
            if forall|idx: Seq<u64>|
                in_bounds(idx, sh) ==> #[trigger] a.element_at(idx, v) == b.element_at(idx, v) {
                assert forall|k: int| 0 <= k < x@.len() implies x@[k] == y@[k] by {
                    crate::index::lemma_unravel_in_bounds(k as nat, sh);
                    assert(region_index(all.start@, all.shape@, k as nat) =~= unravel(k as nat, sh));
                    assert(a.element_at(unravel(k as nat, sh), v) == b.element_at(unravel(k as nat, sh), v));
                }
                assert(x@ =~= y@);
            }
        }
    }
    Ok(same)
}

/// The data type and fill value of a copy of `array`. A given data type
/// overrides the array's. A given fill value is used where it is a valid
/// element of that type. Without one, a new data type takes the array's fill
/// value converted as an integer cast does (`None` for floating-point types),
/// and otherwise the array's fill value is kept.
pub fn reencode_fill_value(array: &Array, data_type: Option<DataType>, fill_value: Option<u64>) -> (r:
    Option<(DataType, u64)>)
    requires
        array.wf(),
    ensures
        ({
            let dt = if data_type.is_some() {
                data_type->Some_0
            } else {
                array.data_type
            };
            if fill_value.is_some() {
                r == if fill_value->Some_0 <= dt.max_bits() {
                    Some((dt, fill_value->Some_0))
                } else {
                    None::<(DataType, u64)>
                }
            } else if data_type.is_some() {
                r == if array.data_type.is_integer() && dt.is_integer() {
                    Some((dt, (integer_value(array.fill_value, array.data_type) % dt.modulus()) as u64))
                } else {
                    None::<(DataType, u64)>
                }
            } else {
                r == Some((array.data_type, array.fill_value))
            }
        }),
{
    let dt = if data_type.is_some() {
        data_type.unwrap()
    } else {
        array.data_type
    };
    if fill_value.is_some() {
        let f = fill_value.unwrap();
        if f <= crate::array::max_bits(dt) {
            return Some((dt, f));
        }
        return None;
    }
    if data_type.is_some() {
        return match convert_fill_value(array.data_type, array.fill_value, dt) {
            Some(f) => Some((dt, f)),
            None => None,
        };
    }
    Some((array.data_type, array.fill_value))
}

/// After a copy that succeeded (every output element equals the input's), an
/// element whose input chunk was never written reads as the input's fill
/// value.
pub proof fn lemma_copy_keeps_fill(array_in: &Array, array_out: &Array, idx: Seq<u64>, validate: bool)
    requires
        array_in.wf(),
        in_bounds(idx, array_in.grid.array_shape@),
        array_in.store@[ravel(
            chunk_of(idx, array_in.grid.chunk_shape@),
            array_in.grid_shape_view(),
        ) as int].is_none(),
        forall|i: Seq<u64>|
            in_bounds(i, array_in.grid.array_shape@) ==> #[trigger] array_out.element_at(i, validate)
                == array_in.element_at(i, validate),
    ensures
        array_out.element_at(idx, validate) == array_in.fill_value,
{
    array_in.lemma_unwritten_reads_fill(idx, validate);
    assert(array_out.element_at(idx, validate) == array_in.element_at(idx, validate));
}

} // verus!
