//! An array: a chunk grid, a codec for each chunk, and an in-memory store of
//! encoded chunks keyed by their row-major chunk index. Chunks never written
//! read as the fill value.
use vstd::prelude::*;
use crate::codec::{
    chain_decode_spec, chain_encode_spec, lemma_chain_decode_len, lemma_chain_round_trip,
    valid_elements, CodecChain, CodecError, CodecOptions, DataType,
};
use crate::grid::{
    ChunkGrid, GridError, chunk_of, local_of, grid_shape_spec, chunk_shape_spec, grid_wf,
    lemma_chunk_of_in_grid, lemma_grid_num_elements,
};
use crate::index::{
    all_positive, in_bounds, num_elements, ravel, unravel, checked_num_elements, ravel_index,
    unravel_index, lemma_ravel_bound, lemma_unravel_in_bounds, lemma_unravel_ravel,
    lemma_ravel_unravel, lemma_ravel_injective,
};
use crate::region::{region_index, offset_index, lemma_num_elements_le, lemma_region_index_in_bounds};
use crate::shard_codec::{ShardingCodec, filled, fill_elements, inner_start};
use crate::region::{region_elems, lemma_num_elements_zero};
use crate::sharding::{decode_index_spec, decode_shard_index};
use crate::subset::ArraySubset;
use crate::chunk_cache::ChunkCache;
use crate::concurrency::RecommendedConcurrency;
use crate::index::copy_u64s;

verus! {

/// The codec of every chunk of an array.
#[derive(Clone, Debug)]
pub enum ChunkCodec {
    /// Elements to bytes, with an optional checksum.
    Plain(CodecChain),
    /// Chunks are shards of inner chunks.
    Sharded(ShardingCodec),
}

/// Why an array operation failed.
#[derive(Clone, Copy, Debug, PartialEq, Eq, Structural)]
pub enum ArrayError {
    /// Chunk or array indices outside the array.
    OutOfBounds,
    /// Stored bytes could not be decoded, or a chunk could not be encoded.
    Codec(CodecError),
    /// The array's metadata is inconsistent.
    IncompatibleConfiguration,
    /// The number of elements given does not match the region written.
    UnexpectedElementCount,
}

/// A chunked array held in memory.
#[derive(Debug)]
pub struct Array {
    pub grid: ChunkGrid,
    pub data_type: DataType,
    pub fill_value: u64,
    pub codec: ChunkCodec,
    /// The encoded chunks, by row-major chunk index; `None` for a chunk never
    /// written.
    pub store: Vec<Option<Vec<u8>>>,
    /// The array's metadata document, stored under its own key; `None` until
    /// written, which marks an array whose writing is not complete.
    pub metadata: Option<Vec<u8>>,
}

impl Array {
    pub open spec fn grid_shape_view(&self) -> Seq<u64> {
        self.grid.grid_shape_view()
    }

    pub open spec fn num_chunks(&self) -> nat {
        num_elements(self.grid_shape_view())
    }

    /// The shape of chunk `g`.
    pub open spec fn chunk_shape_of(&self, g: Seq<u64>) -> Seq<u64> {
        self.grid.chunk_shape_view(g)
    }

    pub open spec fn wf(&self) -> bool {
        &&& self.grid.wf()
        &&& self.fill_value <= self.data_type.max_bits()
        &&& self.store@.len() == self.num_chunks()
        &&& match self.codec {
            ChunkCodec::Plain(_) => true,
            ChunkCodec::Sharded(sc) => {
                &&& sc.inner_shape@.len() == self.grid.array_shape@.len()
                &&& all_positive(sc.inner_shape@)
                &&& 16 * num_elements(self.grid.array_shape@) + 4 <= u64::MAX
            },
        }
    }

    /// The elements of chunk `g` stored as `bytes`, `None` where they do not
    /// decode.
    pub open spec fn chunk_decode_spec(&self, g: Seq<u64>, bytes: Seq<u8>, validate: bool) -> Option<
        Seq<u64>,
    > {
        let cs = self.chunk_shape_of(g);
        match self.codec {
            ChunkCodec::Plain(chain) => match chain_decode_spec(
                bytes,
                num_elements(cs),
                self.data_type,
                chain,
                validate,
            ) {
                Ok(v) => Some(v),
                Err(_) => None,
            },
            ChunkCodec::Sharded(sc) => if sc.decodes(
                bytes,
                cs,
                self.data_type,
                self.fill_value,
                validate,
            ) {
                Some(sc.decode_spec(bytes, cs, self.data_type, self.fill_value, validate))
            } else {
                None
            },
        }
    }

    /// The elements of chunk `g`: the fill value where it was never written,
    /// `None` where its bytes do not decode.
    #[verifier::opaque]
    pub open spec fn chunk_value(&self, g: Seq<u64>, validate: bool) -> Option<Seq<u64>> {
        match self.store@[ravel(g, self.grid_shape_view()) as int] {
            None => Some(filled(self.fill_value, num_elements(self.chunk_shape_of(g)))),
            Some(b) => self.chunk_decode_spec(g, b@, validate),
        }
    }

    /// The chunk holding array index `idx` decodes.
    pub open spec fn readable(&self, idx: Seq<u64>, validate: bool) -> bool {
        self.chunk_value(chunk_of(idx, self.grid.chunk_shape@), validate).is_some()
    }

    /// The element at array index `idx`.
    pub open spec fn element_at(&self, idx: Seq<u64>, validate: bool) -> u64 {
        let g = chunk_of(idx, self.grid.chunk_shape@);
        self.chunk_value(g, validate).unwrap()[ravel(
            local_of(idx, self.grid.chunk_shape@),
            self.chunk_shape_of(g),
        ) as int]
    }

    /// The elements of `subset`, in row-major order.
    pub open spec fn subset_elements(&self, start: Seq<u64>, shape: Seq<u64>, validate: bool) -> Seq<
        u64,
    > {
        Seq::new(
            num_elements(shape),
            |k: int| self.element_at(region_index(start, shape, k as nat), validate),
        )
    }

    /// Every chunk that `contents` holds is the decoded chunk of its
    /// row-major index.
    pub open spec fn cache_consistent(&self, contents: Map<u64, Seq<u64>>, validate: bool) -> bool {
        forall|k: u64|
            #[trigger] contents.contains_key(k) ==> k < self.num_chunks() && self.chunk_value(
                unravel(k as nat, self.grid_shape_view()),
                validate,
            ) == Some(contents[k])
    }

    /// An array of `array_shape` cut into chunks of `chunk_shape`, with every
    /// chunk unwritten. Fails where the shapes do not make a grid, the fill
    /// value is not a valid `data_type` element, or a sharded codec's inner
    /// chunk shape does not divide the chunk shape.
    pub fn new(
        array_shape: Vec<u64>,
        chunk_shape: Vec<u64>,
        data_type: DataType,
        fill_value: u64,
        codec: ChunkCodec,
    ) -> (r: Result<Array, ArrayError>)
        ensures
            r.is_ok() ==> r.unwrap().metadata.is_none(),
            r.is_ok() ==> r.unwrap().codec == codec,
            r.is_ok() ==> r.unwrap().wf() && r.unwrap().grid.array_shape@ == array_shape@
                && r.unwrap().grid.chunk_shape@ == chunk_shape@ && r.unwrap().data_type == data_type
                && r.unwrap().fill_value == fill_value && forall|c: int|
                0 <= c < r.unwrap().store@.len() ==> #[trigger] r.unwrap().store@[c].is_none(),
            r.is_ok() <==> grid_wf(array_shape@, chunk_shape@) && fill_value <= data_type.max_bits()
                && match codec {
                ChunkCodec::Plain(_) => true,
                ChunkCodec::Sharded(sc) => {
                    &&& sc.inner_shape@.len() == chunk_shape@.len()
                    &&& all_positive(sc.inner_shape@)
                    &&& 16 * num_elements(array_shape@) + 4 <= u64::MAX
                    &&& forall|i: int|
                        0 <= i < chunk_shape@.len() ==> #[trigger] (chunk_shape@[i] % sc.inner_shape@[i])
                            == 0
                },
            },
            r.is_err() ==> r == Err::<Array, ArrayError>(ArrayError::IncompatibleConfiguration),
    {
        let grid = match ChunkGrid::new(array_shape, chunk_shape) {
            Ok(g) => g,
            Err(_) => {
                return Err(ArrayError::IncompatibleConfiguration);
            },
        };
        if fill_value > max_bits(data_type) {
            return Err(ArrayError::IncompatibleConfiguration);
        }
        match &codec {
            ChunkCodec::Plain(_) => {},
            ChunkCodec::Sharded(sc) => {
                if sc.inner_shape.len() != grid.chunk_shape.len() {
                    return Err(ArrayError::IncompatibleConfiguration);
                }
                let total = match checked_num_elements(&grid.array_shape) {
                    Some(t) => t,
                    None => {
                        return Err(ArrayError::IncompatibleConfiguration);
                    },
                };
                if total > (u64::MAX - 4) / 16 {
                    proof {
                        assert(16 * total + 4 > u64::MAX) by (nonlinear_arith)
                            requires
                                total > (u64::MAX - 4) / 16,
                        ;
                    }
                    return Err(ArrayError::IncompatibleConfiguration);
                }
                let mut i: usize = 0;
                while i < sc.inner_shape.len()
                    invariant
                        sc.inner_shape@.len() == grid.chunk_shape@.len(),
                        grid.chunk_shape@ == chunk_shape@,
                        grid.array_shape@ == array_shape@,
                        grid_wf(array_shape@, chunk_shape@),
                        fill_value <= data_type.max_bits(),
                        codec == ChunkCodec::Sharded(*sc),
                        16 * num_elements(array_shape@) + 4 <= u64::MAX,
                        i <= sc.inner_shape@.len(),
                        forall|j: int| 0 <= j < i ==> #[trigger] sc.inner_shape@[j] > 0,
                        forall|j: int|
                            0 <= j < i ==> #[trigger] (grid.chunk_shape@[j] % sc.inner_shape@[j]) == 0,
                    decreases sc.inner_shape@.len() - i,
                {
                    if sc.inner_shape[i] == 0 || grid.chunk_shape[i] % sc.inner_shape[i] != 0 {
                        proof {
                            if sc.inner_shape@[i as int] > 0 {
                                assert(!((chunk_shape@[i as int] % sc.inner_shape@[i as int]) == 0));
                            } else {
                                assert(!all_positive(sc.inner_shape@));
                            }
                        }
                        return Err(ArrayError::IncompatibleConfiguration);
                    }
                    i = i + 1;
                }
            },
        }
        let gshape = grid.grid_shape();
        proof {
            lemma_grid_num_elements(grid.array_shape@, grid.chunk_shape@);
        }
        let n = match checked_num_elements(&gshape) {
            Some(n) => n,
            None => {
                proof {
                    assert(false);
                }
                return Err(ArrayError::IncompatibleConfiguration);
            },
        };
        let mut store: Vec<Option<Vec<u8>>> = Vec::new();
        let mut c: u64 = 0;
        while c < n
            invariant
                c <= n,
                store@.len() == c,
                forall|t: int| 0 <= t < c ==> #[trigger] store@[t].is_none(),
            decreases n - c,
        {
            store.push(None);
            c = c + 1;
        }
        Ok(Array { grid, data_type, fill_value, codec, store, metadata: None })
    }

    /// The row-major index of chunk `g` in the store.
    fn chunk_key(&self, g: &Vec<u64>) -> (r: usize)
        requires
            self.wf(),
            in_bounds(g@, self.grid_shape_view()),
        ensures
            r == ravel(g@, self.grid_shape_view()),
            r < self.store@.len(),
    {
        let gshape = self.grid.grid_shape();
        proof {
            lemma_grid_num_elements(self.grid.array_shape@, self.grid.chunk_shape@);
            lemma_ravel_bound(g@, gshape@);
        }
        let c = ravel_index(g, &gshape);
        let slen = self.store.len();
        assert(c < slen);
        c as usize
    }

    /// The elements of chunk `g`. Fails with `OutOfBounds` where `g` is not a
    /// chunk of the grid, and with a codec error where its stored bytes do not
    /// decode; a chunk never written reads as the fill value.
    pub fn retrieve_chunk(&self, g: &Vec<u64>, options: &CodecOptions) -> (r: Result<
        Vec<u64>,
        ArrayError,
    >)
        requires
            self.wf(),
        ensures
            !in_bounds(g@, self.grid_shape_view()) <==> r == Err::<Vec<u64>, ArrayError>(
                ArrayError::OutOfBounds,
            ),
            match r {
                Ok(v) => self.chunk_value(g@, options.validate_checksums) == Some(v@),
                Err(ArrayError::Codec(_)) => in_bounds(g@, self.grid_shape_view())
                    && self.chunk_value(g@, options.validate_checksums).is_none(),
                Err(e) => e == ArrayError::OutOfBounds,
            },
            r.is_ok() ==> valid_elements(r.unwrap()@, self.data_type),
    {
        proof {
            reveal(Array::chunk_value);
        }
        let cs = match self.grid.chunk_shape_at(g) {
            Ok(cs) => cs,
            Err(_) => {
                return Err(ArrayError::OutOfBounds);
            },
        };
        let m = match checked_num_elements(&cs) {
            Some(m) => m,
            None => {
                proof {
                    assert(false);
                }
                return Err(ArrayError::OutOfBounds);
            },
        };
        let key = self.chunk_key(g);
        match &self.store[key] {
            None => Ok(fill_elements(self.fill_value, m)),
            Some(bytes) => match &self.codec {
                ChunkCodec::Plain(chain) => match chain.decode(bytes, m, self.data_type, options) {
                    Ok(v) => Ok(v),
                    Err(e) => Err(ArrayError::Codec(e)),
                },
                ChunkCodec::Sharded(sc) => {
                    proof {
                        self.lemma_shard_fits(g@);
                    }
                    match sc.decode(bytes, &cs, self.data_type, self.fill_value, options) {
                        Ok(v) => Ok(v),
                        Err(e) => Err(ArrayError::Codec(e)),
                    }
                },
            },
        }
    }

    /// A sharded array's codec fits each of its chunks.
    pub proof fn lemma_shard_fits(&self, g: Seq<u64>)
        requires
            self.wf(),
            in_bounds(g, self.grid_shape_view()),
            self.codec is Sharded,
        ensures
            self.codec->Sharded_0.wf_for(self.chunk_shape_of(g)),
    {
        let sc = self.codec->Sharded_0;
        let a = self.grid.array_shape@;
        let c = self.grid.chunk_shape@;
        let cs = self.chunk_shape_of(g);
        crate::shard_codec::lemma_chunk_geometry(a, c, g);
        assert forall|i: int| 0 <= i < cs.len() implies cs[i] <= a[i] by {}
        lemma_num_elements_le(cs, a);
        lemma_grid_num_elements(cs, sc.inner_shape@);
    }

    /// A decoded chunk holds one element per position of its shape.
    pub proof fn lemma_chunk_value_len(&self, g: Seq<u64>, validate: bool)
        requires
            self.wf(),
            in_bounds(g, self.grid_shape_view()),
            self.chunk_value(g, validate).is_some(),
        ensures
            self.chunk_value(g, validate).unwrap().len() == num_elements(self.chunk_shape_of(g)),
            valid_elements(self.chunk_value(g, validate).unwrap(), self.data_type),
    {
        reveal(Array::chunk_value);
        let cs = self.chunk_shape_of(g);
        let v = self.chunk_value(g, validate).unwrap();
        match self.store@[ravel(g, self.grid_shape_view()) as int] {
            None => {
                assert forall|i: int| 0 <= i < v.len() implies #[trigger] v[i] <= self.data_type.max_bits() by {}
            },
            Some(b) => match self.codec {
                ChunkCodec::Plain(chain) => {
                    lemma_chain_decode_len(b@, num_elements(cs), self.data_type, chain, validate);
                },
                ChunkCodec::Sharded(sc) => {
                    self.lemma_shard_fits(g);
                    self.lemma_sharded_valid(g, b@, validate);
                },
            },
        }
    }

    /// A decoded shard's elements are valid.
    proof fn lemma_sharded_valid(&self, g: Seq<u64>, b: Seq<u8>, validate: bool)
        requires
            self.wf(),
            in_bounds(g, self.grid_shape_view()),
            self.codec is Sharded,
            self.codec->Sharded_0.wf_for(self.chunk_shape_of(g)),
            self.codec->Sharded_0.decodes(
                b,
                self.chunk_shape_of(g),
                self.data_type,
                self.fill_value,
                validate,
            ),
        ensures
            valid_elements(
                self.codec->Sharded_0.decode_spec(
                    b,
                    self.chunk_shape_of(g),
                    self.data_type,
                    self.fill_value,
                    validate,
                ),
                self.data_type,
            ),
    {
        let sc = self.codec->Sharded_0;
        let cs = self.chunk_shape_of(g);
        let dt = self.data_type;
        let fill = self.fill_value;
        let d = sc.decode_spec(b, cs, dt, fill, validate);
        let idx = decode_index_spec(b, sc.num_inner(cs), sc.index_codec, validate).unwrap();
        assert forall|l: int| 0 <= l < d.len() implies #[trigger] d[l] <= dt.max_bits() by {
            let x = unravel(l as nat, cs);
            lemma_unravel_in_bounds(l as nat, cs);
            lemma_chunk_of_in_grid(cs, sc.inner_shape@, x);
            let gi = chunk_of(x, sc.inner_shape@);
            let gs = sc.inner_grid_spec(cs);
            lemma_grid_num_elements(cs, sc.inner_shape@);
            lemma_ravel_bound(gi, gs);
            lemma_unravel_ravel(gi, gs);
            let j = ravel(gi, gs);
            let ics = chunk_shape_spec(cs, sc.inner_shape@, gi);
            lemma_ravel_bound(local_of(x, sc.inner_shape@), ics);
            assert(sc.inner_decode_spec(b, idx, cs, j, dt, fill, validate).is_ok());
            match crate::sharding::inner_bytes_spec(b, idx, j as int) {
                Ok(Some(bytes)) => {
                    lemma_chain_decode_len(bytes, num_elements(ics), dt, sc.inner_chain, validate);
                },
                _ => {},
            }
        }
    }

    /// The elements of `subset`, gathered from the chunks it overlaps. Fails
    /// with `OutOfBounds` where the subset does not lie inside the array, and
    /// with a codec error where a chunk it overlaps does not decode. The result
    /// does not depend on how many chunks are in flight: it is one fixed
    /// sequence for a given array and subset.
    #[verifier::spinoff_prover]
    pub fn retrieve_array_subset(&self, subset: &ArraySubset, options: &CodecOptions) -> (r: Result<
        Vec<u64>,
        ArrayError,
    >)
        requires
            self.wf(),
            subset.wf(),
        ensures
            !subset.within_spec(self.grid.array_shape@) <==> r == Err::<Vec<u64>, ArrayError>(
                ArrayError::OutOfBounds,
            ),
            r.is_ok() <==> subset.within_spec(self.grid.array_shape@) && forall|k: nat|
                k < num_elements(subset.shape@) ==> #[trigger] self.readable(
                    region_index(subset.start@, subset.shape@, k),
                    options.validate_checksums,
                ),
            r.is_ok() ==> r.unwrap()@ == self.subset_elements(
                subset.start@,
                subset.shape@,
                options.validate_checksums,
            ) && valid_elements(r.unwrap()@, self.data_type),
            r.is_err() ==> r == Err::<Vec<u64>, ArrayError>(ArrayError::OutOfBounds) || exists|
                e: CodecError,
            | r == Err::<Vec<u64>, ArrayError>(ArrayError::Codec(e)),
    {
        let ghost validate = options.validate_checksums;
        if !subset.inbounds_shape(&self.grid.array_shape) {
            return Err(ArrayError::OutOfBounds);
        }
        proof {
            lemma_num_elements_le(subset.shape@, self.grid.array_shape@);
        }
        let n = match subset.num_elements() {
            Some(n) => n,
            None => {
                proof {
                    assert(false);
                }
                return Err(ArrayError::OutOfBounds);
            },
        };
        let mut out: Vec<u64> = Vec::new();
        if n == 0 {
            proof {
                assert(out@ =~= self.subset_elements(subset.start@, subset.shape@, validate));
            }
            return Ok(out);
        }
        proof {
            if !all_positive(subset.shape@) {
                lemma_num_elements_zero(subset.shape@);
            }
            lemma_grid_num_elements(self.grid.array_shape@, self.grid.chunk_shape@);
        }
        let gshape = self.grid.grid_shape();
        let mut cached: Vec<u64> = Vec::new();
        let mut cached_key: u64 = 0;
        let mut has_cached = false;
        let mut k: u64 = 0;
        while k < n
            invariant
                self.wf(),
                subset.wf(),
                subset.within_spec(self.grid.array_shape@),
                all_positive(subset.shape@),
                validate == options.validate_checksums,
                n == num_elements(subset.shape@),
                gshape@ == self.grid_shape_view(),
                all_positive(gshape@),
                num_elements(gshape@) <= num_elements(self.grid.array_shape@),
                k <= n,
                has_cached ==> cached_key < num_elements(gshape@) && self.chunk_value(
                    unravel(cached_key as nat, gshape@),
                    validate,
                ) == Some(cached@),
                out@ =~= self.subset_elements(subset.start@, subset.shape@, validate).take(k as int),
                valid_elements(out@, self.data_type),
                forall|t: nat|
                    t < k ==> #[trigger] self.readable(
                        region_index(subset.start@, subset.shape@, t),
                        validate,
                    ),
            decreases n - k,
        {
            let local = unravel_index(k, &subset.shape);
            let coord = offset_index(&subset.start, &local, &self.grid.array_shape);
            proof {
                assert(coord@ =~= region_index(subset.start@, subset.shape@, k as nat));
                lemma_chunk_of_in_grid(self.grid.array_shape@, self.grid.chunk_shape@, coord@);
            }
            let g = self.grid.chunk_indices_of(&coord);
            let loc = self.grid.local_indices_of(&coord);
            proof {
                lemma_ravel_bound(g@, gshape@);
                lemma_unravel_ravel(g@, gshape@);
            }
            let key = ravel_index(&g, &gshape);
            if !has_cached || key != cached_key {
                match self.retrieve_chunk(&g, options) {
                    Ok(v) => {
                        cached = v;
                        cached_key = key;
                        has_cached = true;
                    },
                    Err(e) => {
                        proof {
                            assert(!self.readable(region_index(subset.start@, subset.shape@, k as nat), validate));
                            assert(e is Codec);
                            assert(e == ArrayError::Codec(e->Codec_0));
                        }
                        return Err(e);
                    },
                }
            }
            let cs = match self.grid.chunk_shape_at(&g) {
                Ok(cs) => cs,
                Err(_) => {
                    proof {
                        assert(false);
                    }
                    return Err(ArrayError::OutOfBounds);
                },
            };
            proof {
                self.lemma_chunk_value_len(g@, validate);
                lemma_ravel_bound(loc@, cs@);
            }
            let p = ravel_index(&loc, &cs);
            let clen = cached.len();
            assert(p < clen);
            out.push(cached[p as usize]);
            k = k + 1;
        }
        proof {
            assert(self.subset_elements(subset.start@, subset.shape@, validate).take(n as int)
                =~= self.subset_elements(subset.start@, subset.shape@, validate));
        }
        Ok(out)
    }

    /// The elements of `subset`, as `retrieve_array_subset` gives them, with
    /// decoded chunks taken from `cache` where it holds them and recorded in it
    /// otherwise.
    #[verifier::spinoff_prover]
    pub fn retrieve_array_subset_cached(
        &self,
        cache: &mut ChunkCache,
        subset: &ArraySubset,
        options: &CodecOptions,
    ) -> (r: Result<
        Vec<u64>,
        ArrayError,
    >)
        requires
            self.wf(),
            subset.wf(),
            self.cache_consistent(old(cache).contents(), options.validate_checksums),
        ensures
            self.cache_consistent(final(cache).contents(), options.validate_checksums),
            !subset.within_spec(self.grid.array_shape@) <==> r == Err::<Vec<u64>, ArrayError>(
                ArrayError::OutOfBounds,
            ),
            r.is_ok() <==> subset.within_spec(self.grid.array_shape@) && forall|k: nat|
                k < num_elements(subset.shape@) ==> #[trigger] self.readable(
                    region_index(subset.start@, subset.shape@, k),
                    options.validate_checksums,
                ),
            r.is_ok() ==> r.unwrap()@ == self.subset_elements(
                subset.start@,
                subset.shape@,
                options.validate_checksums,
            ) && valid_elements(r.unwrap()@, self.data_type),
            r.is_err() ==> r == Err::<Vec<u64>, ArrayError>(ArrayError::OutOfBounds) || exists|
                e: CodecError,
            | r == Err::<Vec<u64>, ArrayError>(ArrayError::Codec(e)),
    {
        let ghost validate = options.validate_checksums;
        if !subset.inbounds_shape(&self.grid.array_shape) {
            return Err(ArrayError::OutOfBounds);
        }
        proof {
            lemma_num_elements_le(subset.shape@, self.grid.array_shape@);
        }
        let n = match subset.num_elements() {
            Some(n) => n,
            None => {
                proof {
                    assert(false);
                }
                return Err(ArrayError::OutOfBounds);
            },
        };
        let mut out: Vec<u64> = Vec::new();
        if n == 0 {
            proof {
                assert(out@ =~= self.subset_elements(subset.start@, subset.shape@, validate));
            }
            return Ok(out);
        }
        proof {
            if !all_positive(subset.shape@) {
                lemma_num_elements_zero(subset.shape@);
            }
            lemma_grid_num_elements(self.grid.array_shape@, self.grid.chunk_shape@);
        }
        let gshape = self.grid.grid_shape();
        let mut cached: Vec<u64> = Vec::new();
        let mut cached_key: u64 = 0;
        let mut has_cached = false;
        let mut k: u64 = 0;
        while k < n
            invariant
                self.wf(),
                subset.wf(),
                subset.within_spec(self.grid.array_shape@),
                all_positive(subset.shape@),
                validate == options.validate_checksums,
                n == num_elements(subset.shape@),
                gshape@ == self.grid_shape_view(),
                all_positive(gshape@),
                num_elements(gshape@) <= num_elements(self.grid.array_shape@),
                k <= n,
                self.cache_consistent(cache.contents(), validate),
                has_cached ==> cached_key < num_elements(gshape@) && self.chunk_value(
                    unravel(cached_key as nat, gshape@),
                    validate,
                ) == Some(cached@),
                out@ =~= self.subset_elements(subset.start@, subset.shape@, validate).take(k as int),
                valid_elements(out@, self.data_type),
                forall|t: nat|
                    t < k ==> #[trigger] self.readable(
                        region_index(subset.start@, subset.shape@, t),
                        validate,
                    ),
            decreases n - k,
        {
            let local = unravel_index(k, &subset.shape);
            let coord = offset_index(&subset.start, &local, &self.grid.array_shape);
            proof {
                assert(coord@ =~= region_index(subset.start@, subset.shape@, k as nat));
                lemma_chunk_of_in_grid(self.grid.array_shape@, self.grid.chunk_shape@, coord@);
            }
            let g = self.grid.chunk_indices_of(&coord);
            let loc = self.grid.local_indices_of(&coord);
            proof {
                lemma_ravel_bound(g@, gshape@);
                lemma_unravel_ravel(g@, gshape@);
            }
            let key = ravel_index(&g, &gshape);
            if !has_cached || key != cached_key {
                let hit = cache.get(key);
                if hit.is_some() {
                    cached = hit.unwrap();
                    cached_key = key;
                    has_cached = true;
                } else {
                    match self.retrieve_chunk(&g, options) {
                        Ok(v) => {
                            let ghost before = cache.contents();
                            cache.put(key, copy_u64s(&v));
                            proof {
                                assert forall|k: u64| #[trigger] cache.contents().contains_key(k) implies k
                                    < self.num_chunks() && self.chunk_value(
                                    unravel(k as nat, self.grid_shape_view()),
                                    validate,
                                ) == Some(cache.contents()[k]) by {
                                    if k != key {
                                        assert(before.contains_key(k));
                                    }
                                }
                            }
                            cached = v;
                            cached_key = key;
                            has_cached = true;
                        },
                        Err(e) => {
                            proof {
                                assert(!self.readable(region_index(subset.start@, subset.shape@, k as nat), validate));
                                assert(e is Codec);
                                assert(e == ArrayError::Codec(e->Codec_0));
                            }
                            return Err(e);
                        },
                    }
                }
            }
            let cs = match self.grid.chunk_shape_at(&g) {
                Ok(cs) => cs,
                Err(_) => {
                    proof {
                        assert(false);
                    }
                    return Err(ArrayError::OutOfBounds);
                },
            };
            proof {
                self.lemma_chunk_value_len(g@, validate);
                lemma_ravel_bound(loc@, cs@);
            }
            let p = ravel_index(&loc, &cs);
            let clen = cached.len();
            assert(p < clen);
            out.push(cached[p as usize]);
            k = k + 1;
        }
        proof {
            assert(self.subset_elements(subset.start@, subset.shape@, validate).take(n as int)
                =~= self.subset_elements(subset.start@, subset.shape@, validate));
        }
        Ok(out)
    }

    /// Encodes `elems` as chunk `g` and stores it. Fails with `OutOfBounds`
    /// where `g` is not a chunk of the grid, with `UnexpectedElementCount` where
    /// `elems` does not fill the chunk, and with a codec error where a shard
    /// would be too large; on failure the store is unchanged.
    pub fn store_chunk(&mut self, g: &Vec<u64>, elems: &Vec<u64>) -> (r: Result<(), ArrayError>)
        requires
            old(self).wf(),
            valid_elements(elems@, old(self).data_type),
        ensures
            final(self).wf(),
            final(self).grid == old(self).grid,
            final(self).data_type == old(self).data_type,
            final(self).fill_value == old(self).fill_value,
            final(self).codec == old(self).codec,
            final(self).metadata == old(self).metadata,
            !in_bounds(g@, old(self).grid_shape_view()) <==> r == Err::<(), ArrayError>(
                ArrayError::OutOfBounds,
            ),
            in_bounds(g@, old(self).grid_shape_view()) && elems@.len() != num_elements(
                old(self).chunk_shape_of(g@),
            ) <==> r == Err::<(), ArrayError>(ArrayError::UnexpectedElementCount),
            r.is_ok() <==> in_bounds(g@, old(self).grid_shape_view()) && elems@.len()
                == num_elements(old(self).chunk_shape_of(g@)) && match old(self).codec {
                ChunkCodec::Plain(_) => true,
                ChunkCodec::Sharded(sc) => sc.fits(
                    elems@,
                    old(self).chunk_shape_of(g@),
                    old(self).data_type,
                    old(self).fill_value,
                ),
            },
            r.is_err() ==> final(self).store@ == old(self).store@,
            r.is_ok() ==> forall|v: bool| #[trigger] final(self).chunk_value(g@, v) == Some(elems@),
            r.is_ok() ==> forall|h: Seq<u64>, v: bool|
                in_bounds(h, old(self).grid_shape_view()) && h != g@ ==> #[trigger] final(self).chunk_value(h, v) == old(self).chunk_value(h, v),
    {
        proof {
            reveal(Array::chunk_value);
        }
        let cs = match self.grid.chunk_shape_at(g) {
            Ok(cs) => cs,
            Err(_) => {
                return Err(ArrayError::OutOfBounds);
            },
        };
        let m = match checked_num_elements(&cs) {
            Some(m) => m,
            None => {
                proof {
                    assert(false);
                }
                return Err(ArrayError::OutOfBounds);
            },
        };
        if elems.len() as u64 != m {
            return Err(ArrayError::UnexpectedElementCount);
        }
        let bytes = match &self.codec {
            ChunkCodec::Plain(chain) => chain.encode(elems, self.data_type),
            ChunkCodec::Sharded(sc) => {
                proof {
                    self.lemma_shard_fits(g@);
                }
                match sc.encode(elems, &cs, self.data_type, self.fill_value) {
                    Ok(b) => b,
                    Err(e) => {
                        return Err(ArrayError::Codec(e));
                    },
                }
            },
        };
        let key = self.chunk_key(g);
        let ghost before = *self;
        self.store.set(key, Some(bytes));
        proof {
            assert forall|v: bool| #[trigger] self.chunk_value(g@, v) == Some(elems@) by {
                match self.codec {
                    ChunkCodec::Plain(chain) => {
                        lemma_chain_round_trip(elems@, self.data_type, chain, v);
                    },
                    ChunkCodec::Sharded(sc) => {
                        self.lemma_shard_fits(g@);
                        sc.lemma_round_trip(elems@, cs@, self.data_type, self.fill_value, v);
                    },
                }
            }
            assert forall|h: Seq<u64>, v: bool|
                in_bounds(h, before.grid_shape_view()) && h != g@ implies #[trigger] self.chunk_value(
                h,
                v,
            ) == before.chunk_value(h, v) by {
                if ravel(h, before.grid_shape_view()) == ravel(g@, before.grid_shape_view()) {
                    lemma_ravel_injective(h, g@, before.grid_shape_view());
                }
                lemma_grid_num_elements(self.grid.array_shape@, self.grid.chunk_shape@);
                lemma_ravel_bound(h, before.grid_shape_view());
            }
        }
        Ok(())
    }

    /// Removes chunk `g` from the store, so that it reads as the fill value.
    pub fn erase_chunk(&mut self, g: &Vec<u64>) -> (r: Result<(), ArrayError>)
        requires
            old(self).wf(),
        ensures
            final(self).wf(),
            final(self).grid == old(self).grid,
            final(self).data_type == old(self).data_type,
            final(self).fill_value == old(self).fill_value,
            final(self).codec == old(self).codec,
            final(self).metadata == old(self).metadata,
            !in_bounds(g@, old(self).grid_shape_view()) <==> r == Err::<(), ArrayError>(
                ArrayError::OutOfBounds,
            ),
            r.is_err() ==> final(self).store@ == old(self).store@,
            r.is_ok() ==> forall|v: bool| #[trigger] final(self).chunk_value(g@, v) == Some(
                filled(old(self).fill_value, num_elements(old(self).chunk_shape_of(g@))),
            ),
            r.is_ok() ==> forall|h: Seq<u64>, v: bool|
                in_bounds(h, old(self).grid_shape_view()) && h != g@ ==> #[trigger] final(self).chunk_value(h, v) == old(self).chunk_value(h, v),
    {
        proof {
            reveal(Array::chunk_value);
        }
        if !self.grid.chunk_in_grid(g) {
            return Err(ArrayError::OutOfBounds);
        }
        let key = self.chunk_key(g);
        let ghost before = *self;
        self.store.set(key, None);
        proof {
            assert forall|h: Seq<u64>, v: bool|
                in_bounds(h, before.grid_shape_view()) && h != g@ implies #[trigger] self.chunk_value(
                h,
                v,
            ) == before.chunk_value(h, v) by {
                if ravel(h, before.grid_shape_view()) == ravel(g@, before.grid_shape_view()) {
                    lemma_ravel_injective(h, g@, before.grid_shape_view());
                }
                lemma_grid_num_elements(self.grid.array_shape@, self.grid.chunk_shape@);
                lemma_ravel_bound(h, before.grid_shape_view());
            }
        }
        Ok(())
    }

    /// What reading inner chunk `j` of shard `g` owes: success where the shard
    /// was never written or decodes, and then the inner chunk's region of the
    /// decoded shard.
    pub open spec fn inner_outcome(
        &self,
        g: Seq<u64>,
        j: nat,
        validate: bool,
        r: Result<Vec<u64>, ArrayError>,
    ) -> bool {
        let sc = self.codec->Sharded_0;
        let cs = self.chunk_shape_of(g);
        &&& self.store@[ravel(g, self.grid_shape_view()) as int].is_none() ==> r.is_ok()
        &&& self.chunk_value(g, validate).is_some() ==> r.is_ok()
        &&& r.is_ok() && self.chunk_value(g, validate).is_some() ==> r.unwrap()@ == region_elems(
            self.chunk_value(g, validate).unwrap(),
            cs,
            inner_start(sc.inner_shape@, sc.inner_pos(cs, j)),
            sc.inner_chunk_shape(cs, j),
        )
    }

    /// The elements of inner chunk `j` of shard `g`, read through the shard's
    /// index without decoding the other inner chunks. Fails with
    /// `IncompatibleConfiguration` where the array is not sharded, with
    /// `OutOfBounds` where `g` or `j` lies outside the grids, and with a codec
    /// error where the index or the inner chunk does not decode. Where the whole
    /// shard decodes, the result is the inner chunk's region of it.
    pub fn retrieve_inner_chunk(&self, g: &Vec<u64>, j: u64, options: &CodecOptions) -> (r: Result<
        Vec<u64>,
        ArrayError,
    >)
        requires
            self.wf(),
        ensures
            !(self.codec is Sharded) ==> r == Err::<Vec<u64>, ArrayError>(
                ArrayError::IncompatibleConfiguration,
            ),
            self.codec is Sharded && !in_bounds(g@, self.grid_shape_view()) ==> r == Err::<
                Vec<u64>,
                ArrayError,
            >(ArrayError::OutOfBounds),
            self.codec is Sharded && in_bounds(g@, self.grid_shape_view()) ==> (j
                >= self.codec->Sharded_0.num_inner(self.chunk_shape_of(g@)) <==> r == Err::<
                Vec<u64>,
                ArrayError,
            >(ArrayError::OutOfBounds)),
            self.codec is Sharded && in_bounds(g@, self.grid_shape_view()) && j
                < self.codec->Sharded_0.num_inner(self.chunk_shape_of(g@)) ==> self.inner_outcome(
                g@,
                j as nat,
                options.validate_checksums,
                r,
            ),
    {
        let (sc, cs, n, key) = match self.locate_inner(g, j) {
            Ok(t) => t,
            Err(e) => {
                return Err(e);
            },
        };
        let empty: Vec<u64> = Vec::new();
        match &self.store[key] {
            None => self.inner_chunk_with_index(sc, g, &cs, j, n, key, &empty, options),
            Some(b) => {
                let idx = match decode_shard_index(b, n, sc.index_codec, options) {
                    Ok(idx) => idx,
                    Err(e) => {
                        proof {
                            reveal(Array::chunk_value);
                        }
                        return Err(ArrayError::Codec(e));
                    },
                };
                self.inner_chunk_with_index(sc, g, &cs, j, n, key, &idx, options)
            },
        }
    }

    /// The sharding codec, the shape of shard `g`, its number of inner chunks
    /// and its store key, after the checks that every inner-chunk read makes.
    fn locate_inner(&self, g: &Vec<u64>, j: u64) -> (r: Result<
        (&ShardingCodec, Vec<u64>, u64, usize),
        ArrayError,
    >)
        requires
            self.wf(),
        ensures
            !(self.codec is Sharded) ==> r == Err::<(&ShardingCodec, Vec<u64>, u64, usize), ArrayError>(
                ArrayError::IncompatibleConfiguration,
            ),
            self.codec is Sharded && !in_bounds(g@, self.grid_shape_view()) ==> r == Err::<
                (&ShardingCodec, Vec<u64>, u64, usize),
                ArrayError,
            >(ArrayError::OutOfBounds),
            self.codec is Sharded && in_bounds(g@, self.grid_shape_view()) ==> (j
                >= self.codec->Sharded_0.num_inner(self.chunk_shape_of(g@)) <==> r == Err::<
                (&ShardingCodec, Vec<u64>, u64, usize),
                ArrayError,
            >(ArrayError::OutOfBounds)),
            self.codec is Sharded && in_bounds(g@, self.grid_shape_view()) && j
                < self.codec->Sharded_0.num_inner(self.chunk_shape_of(g@)) ==> r.is_ok(),
            r.is_ok() ==> {
                let (sc, cs, n, key) = r.unwrap();
                &&& self.codec == ChunkCodec::Sharded(*sc)
                &&& in_bounds(g@, self.grid_shape_view())
                &&& cs@ == self.chunk_shape_of(g@)
                &&& sc.wf_for(cs@)
                &&& n == sc.num_inner(cs@)
                &&& j < n
                &&& key == ravel(g@, self.grid_shape_view())
                &&& key < self.store@.len()
            },
    {
        let sc = match &self.codec {
            ChunkCodec::Sharded(sc) => sc,
            ChunkCodec::Plain(_) => {
                return Err(ArrayError::IncompatibleConfiguration);
            },
        };
        let cs = match self.grid.chunk_shape_at(g) {
            Ok(cs) => cs,
            Err(_) => {
                return Err(ArrayError::OutOfBounds);
            },
        };
        proof {
            self.lemma_shard_fits(g@);
            lemma_grid_num_elements(cs@, sc.inner_shape@);
        }
        let gshape = sc.inner_grid(&cs).grid_shape();
        let n = match checked_num_elements(&gshape) {
            Some(n) => n,
            None => {
                proof {
                    assert(false);
                }
                return Err(ArrayError::OutOfBounds);
            },
        };
        if j >= n {
            return Err(ArrayError::OutOfBounds);
        }
        let key = self.chunk_key(g);
        Ok((sc, cs, n, key))
    }

    /// Inner chunk `j` of shard `g`, given the shard's decoded index table
    /// where the shard is stored.
    #[verifier::spinoff_prover]
    #[verifier::rlimit(100)]
    fn inner_chunk_with_index(
        &self,
        sc: &ShardingCodec,
        g: &Vec<u64>,
        cs: &Vec<u64>,
        j: u64,
        n: u64,
        key: usize,
        idx: &Vec<u64>,
        options: &CodecOptions,
    ) -> (r: Result<Vec<u64>, ArrayError>)
        requires
            self.wf(),
            self.codec == ChunkCodec::Sharded(*sc),
            in_bounds(g@, self.grid_shape_view()),
            cs@ == self.chunk_shape_of(g@),
            sc.wf_for(cs@),
            n == sc.num_inner(cs@),
            j < n,
            key == ravel(g@, self.grid_shape_view()),
            key < self.store@.len(),
            match self.store@[key as int] {
                None => true,
                Some(b) => decode_index_spec(b@, n as nat, sc.index_codec, options.validate_checksums)
                    == Ok::<Seq<u64>, CodecError>(idx@) && idx@.len() == 2 * n,
            },
        ensures
            self.inner_outcome(g@, j as nat, options.validate_checksums, r),
            match r {
                Err(ArrayError::Codec(_)) => true,
                Err(_) => false,
                Ok(_) => true,
            },
    {
        proof {
            reveal(Array::chunk_value);
        }
        let ghost validate = options.validate_checksums;
        let igrid = sc.inner_grid(cs);
        let gshape = igrid.grid_shape();
        proof {
            lemma_grid_num_elements(cs@, sc.inner_shape@);
        }
        match &self.store[key] {
            None => {
                let ig = unravel_index(j, &gshape);
                let ics = match igrid.chunk_shape_at(&ig) {
                    Ok(c) => c,
                    Err(_) => {
                        proof {
                            assert(false);
                        }
                        return Err(ArrayError::OutOfBounds);
                    },
                };
                let m = match checked_num_elements(&ics) {
                    Some(m) => m,
                    None => {
                        proof {
                            assert(false);
                        }
                        return Err(ArrayError::OutOfBounds);
                    },
                };
                let v = fill_elements(self.fill_value, m);
                proof {
                    let full = filled(self.fill_value, num_elements(cs@));
                    let start = inner_start(sc.inner_shape@, ig@);
                    crate::shard_codec::lemma_chunk_geometry(cs@, sc.inner_shape@, ig@);
                    let reg = region_elems(full, cs@, start, ics@);
                    assert forall|k: int| 0 <= k < reg.len() implies #[trigger] reg[k] == v@[k] by {
                        lemma_region_index_in_bounds(cs@, start, ics@, k as nat);
                        lemma_ravel_bound(region_index(start, ics@, k as nat), cs@);
                    }
                    assert(reg =~= v@);
                }
                Ok(v)
            },
            Some(b) => {
                match sc.decode_inner(b, idx, cs, j, self.data_type, self.fill_value, options) {
                    Ok(v) => {
                        proof {
                            if self.chunk_value(g@, validate).is_some() {
                                sc.lemma_partial_decode_matches_full(
                                    b@,
                                    cs@,
                                    self.data_type,
                                    self.fill_value,
                                    validate,
                                    j as nat,
                                );
                            }
                        }
                        Ok(v)
                    },
                    Err(e) => Err(ArrayError::Codec(e)),
                }
            },
        }
    }

    /// The smallest part of chunk `g` that decodes on its own: the whole chunk,
    /// or one inner chunk of a shard.
    pub fn partial_decode_granularity(&self, g: &Vec<u64>) -> (r: Result<Vec<u64>, ArrayError>)
        requires
            self.wf(),
        ensures
            !in_bounds(g@, self.grid_shape_view()) <==> r == Err::<Vec<u64>, ArrayError>(
                ArrayError::OutOfBounds,
            ),
            r.is_ok() ==> r.unwrap()@ == match self.codec {
                ChunkCodec::Plain(_) => self.chunk_shape_of(g@),
                ChunkCodec::Sharded(sc) => sc.inner_shape@,
            },
    {
        let cs = match self.grid.chunk_shape_at(g) {
            Ok(cs) => cs,
            Err(_) => {
                return Err(ArrayError::OutOfBounds);
            },
        };
        match &self.codec {
            ChunkCodec::Plain(_) => Ok(cs),
            ChunkCodec::Sharded(sc) => Ok(copy_u64s(&sc.inner_shape)),
        }
    }

    /// How many threads decoding chunk `g` can use: one for a plain chunk, up
    /// to one per inner chunk for a shard.
    pub fn recommended_concurrency(&self, g: &Vec<u64>) -> (r: Result<
        RecommendedConcurrency,
        ArrayError,
    >)
        requires
            self.wf(),
        ensures
            !in_bounds(g@, self.grid_shape_view()) <==> r == Err::<
                RecommendedConcurrency,
                ArrayError,
            >(ArrayError::OutOfBounds),
            r.is_ok() ==> r.unwrap().wf() && r.unwrap().min == 1 && r.unwrap().max == match self.codec {
                ChunkCodec::Plain(_) => 1,
                ChunkCodec::Sharded(sc) => if sc.num_inner(self.chunk_shape_of(g@)) <= usize::MAX {
                    sc.num_inner(self.chunk_shape_of(g@))
                } else {
                    usize::MAX as nat
                },
            },
    {
        let cs = match self.grid.chunk_shape_at(g) {
            Ok(cs) => cs,
            Err(_) => {
                return Err(ArrayError::OutOfBounds);
            },
        };
        match &self.codec {
            ChunkCodec::Plain(_) => Ok(RecommendedConcurrency { min: 1, max: 1 }),
            ChunkCodec::Sharded(sc) => {
                proof {
                    self.lemma_shard_fits(g@);
                    lemma_grid_num_elements(cs@, sc.inner_shape@);
                    crate::index::lemma_suffix_product_positive(sc.inner_grid_spec(cs@), 0);
                }
                let gshape = sc.inner_grid(&cs).grid_shape();
                let n = match checked_num_elements(&gshape) {
                    Some(n) => n,
                    None => {
                        proof {
                            assert(false);
                        }
                        return Err(ArrayError::OutOfBounds);
                    },
                };
                if n > usize::MAX as u64 {
                    return Ok(RecommendedConcurrency { min: 1, max: usize::MAX });
                }
                Ok(RecommendedConcurrency { min: 1, max: n as usize })
            },
        }
    }

    /// An element whose chunk was never written reads as the fill value.
    pub proof fn lemma_unwritten_reads_fill(&self, idx: Seq<u64>, validate: bool)
        requires
            self.wf(),
            in_bounds(idx, self.grid.array_shape@),
            self.store@[ravel(chunk_of(idx, self.grid.chunk_shape@), self.grid_shape_view()) as int].is_none(),
        ensures
            self.readable(idx, validate),
            self.element_at(idx, validate) == self.fill_value,
    {
        reveal(Array::chunk_value);
        let g = chunk_of(idx, self.grid.chunk_shape@);
        lemma_chunk_of_in_grid(self.grid.array_shape@, self.grid.chunk_shape@, idx);
        lemma_ravel_bound(local_of(idx, self.grid.chunk_shape@), self.chunk_shape_of(g));
    }

    /// Chunk `h` shares an element with `subset` along every dimension.
    pub open spec fn chunk_overlaps(&self, h: Seq<u64>, subset: &ArraySubset) -> bool {
        forall|i: int|
            0 <= i < h.len() ==> {
                let lo = h[i] * self.grid.chunk_shape@[i];
                let hi = lo + self.chunk_shape_of(h)[i];
                #[trigger] subset.start@[i] < hi && lo < subset.end_spec(i) && subset.start@[i]
                    < subset.end_spec(i)
            }
    }

    /// The elements of chunk `h` after writing `data` over `subset` into the
    /// chunk's elements `old_elems`.
    pub open spec fn patched(
        &self,
        h: Seq<u64>,
        subset: &ArraySubset,
        data: Seq<u64>,
        old_elems: Seq<u64>,
    ) -> Seq<u64> {
        Seq::new(
            num_elements(self.chunk_shape_of(h)),
            |q: int| self.patched_at(h, subset, data, old_elems, q),
        )
    }

    /// Element `q` of chunk `h` after writing `data` over `subset`.
    pub open spec fn patched_at(
        &self,
        h: Seq<u64>,
        subset: &ArraySubset,
        data: Seq<u64>,
        old_elems: Seq<u64>,
        q: int,
    ) -> u64 {
        let x = region_index(inner_start(self.grid.chunk_shape@, h), self.chunk_shape_of(h), q as nat);
        if subset.contains_spec(x) {
            data[ravel(relative(x, subset.start@), subset.shape@) as int]
        } else {
            old_elems[q]
        }
    }

    /// Chunk `h` decodes, and where it is a shard, its patched elements fit a
    /// shard.
    pub open spec fn writable(
        &self,
        h: Seq<u64>,
        subset: &ArraySubset,
        data: Seq<u64>,
        validate: bool,
    ) -> bool {
        &&& self.chunk_value(h, validate).is_some()
        &&& match self.codec {
            ChunkCodec::Plain(_) => true,
            ChunkCodec::Sharded(sc) => sc.fits(
                self.patched(h, subset, data, self.chunk_value(h, validate).unwrap()),
                self.chunk_shape_of(h),
                self.data_type,
                self.fill_value,
            ),
        }
    }

    /// The elements of chunk `h` once `data` is written over `subset`.
    pub open spec fn written_chunk(
        &self,
        h: Seq<u64>,
        subset: &ArraySubset,
        data: Seq<u64>,
        validate: bool,
    ) -> Option<Seq<u64>> {
        if self.chunk_overlaps(h, subset) {
            match self.chunk_value(h, validate) {
                Some(e) => Some(self.patched(h, subset, data, e)),
                None => None,
            }
        } else {
            self.chunk_value(h, validate)
        }
    }

    /// Chunk `g` overlaps `subset` exactly where its region does.
    pub proof fn lemma_overlap_matches(&self, g: Seq<u64>, chunk: &ArraySubset, subset: &ArraySubset)
        requires
            self.wf(),
            subset.wf(),
            subset.within_spec(self.grid.array_shape@),
            in_bounds(g, self.grid_shape_view()),
            chunk.wf(),
            chunk.start@ == Seq::new(g.len(), |i: int| (g[i] * self.grid.chunk_shape@[i]) as u64),
            chunk.shape@ == self.chunk_shape_of(g),
        ensures
            (forall|i: int|
                0 <= i < chunk.dim() ==> #[trigger] chunk.overlap_start(subset, i) < chunk.overlap_end(
                    subset,
                    i,
                )) <==> self.chunk_overlaps(g, subset),
    {
        crate::shard_codec::lemma_chunk_geometry(self.grid.array_shape@, self.grid.chunk_shape@, g);
        assert forall|i: int| 0 <= i < chunk.dim() implies chunk.start@[i] == g[i] * self.grid.chunk_shape@[i]
            && chunk.end_spec(i) == g[i] * self.grid.chunk_shape@[i] + self.chunk_shape_of(g)[i]
            && subset.end_spec(i) <= self.grid.array_shape@[i] by {}
        if self.chunk_overlaps(g, subset) {
            assert forall|i: int| 0 <= i < chunk.dim() implies #[trigger] chunk.overlap_start(
                subset,
                i,
            ) < chunk.overlap_end(subset, i) by {
                assert(subset.start@[i] < g[i] * self.grid.chunk_shape@[i] + self.chunk_shape_of(g)[i]);
            }
        }
        if forall|i: int|
            0 <= i < chunk.dim() ==> #[trigger] chunk.overlap_start(subset, i) < chunk.overlap_end(
                subset,
                i,
            ) {
            assert forall|i: int| 0 <= i < g.len() implies {
                let lo = g[i] * self.grid.chunk_shape@[i];
                let hi = lo + self.chunk_shape_of(g)[i];
                #[trigger] subset.start@[i] < hi && lo < subset.end_spec(i) && subset.start@[i]
                    < subset.end_spec(i)
            } by {
                assert(chunk.overlap_start(subset, i) < chunk.overlap_end(subset, i));
            }
        }
    }

    /// The elements of chunk `g` with `data` written over the part of `subset`
    /// that the chunk holds.
    #[verifier::spinoff_prover]
    #[verifier::rlimit(50)]
    fn patch_chunk(
        &self,
        g: &Vec<u64>,
        chunk: &ArraySubset,
        subset: &ArraySubset,
        data: &Vec<u64>,
        elems: Vec<u64>,
    ) -> (r: Vec<u64>)
        requires
            self.wf(),
            subset.wf(),
            subset.within_spec(self.grid.array_shape@),
            valid_elements(data@, self.data_type),
            data@.len() == num_elements(subset.shape@),
            in_bounds(g@, self.grid_shape_view()),
            chunk.wf(),
            chunk.start@ == Seq::new(g@.len(), |i: int| (g@[i] * self.grid.chunk_shape@[i]) as u64),
            chunk.shape@ == self.chunk_shape_of(g@),
            all_positive(chunk.shape@),
            chunk.within_spec(self.grid.array_shape@),
            elems@.len() == num_elements(self.chunk_shape_of(g@)),
            valid_elements(elems@, self.data_type),
        ensures
            r@ == self.patched(g@, subset, data@, elems@),
            valid_elements(r@, self.data_type),
    {
        let ghost old_elems = elems@;
        let mut elems = elems;
        proof {
            lemma_num_elements_le(subset.shape@, self.grid.array_shape@);
            lemma_num_elements_le(chunk.shape@, self.grid.array_shape@);
            assert(chunk.start@ =~= inner_start(self.grid.chunk_shape@, g@));
        }
        let m = match chunk.num_elements() {
            Some(m) => m,
            None => {
                proof {
                    assert(false);
                }
                return elems;
            },
        };
        let mut q: u64 = 0;
        while q < m
            invariant
                subset.wf(),
                subset.within_spec(self.grid.array_shape@),
                subset.start@.len() == subset.shape@.len(),
                num_elements(subset.shape@) <= u64::MAX,
                data@.len() == num_elements(subset.shape@),
                chunk.start@ == inner_start(self.grid.chunk_shape@, g@),
                chunk.shape@ == self.chunk_shape_of(g@),
                all_positive(chunk.shape@),
                chunk.within_spec(self.grid.array_shape@),
                chunk.start@.len() == chunk.shape@.len(),
                num_elements(chunk.shape@) <= u64::MAX,
                m == num_elements(chunk.shape@),
                q <= m,
                elems@.len() == m,
                forall|t: int|
                    0 <= t < m ==> #[trigger] elems@[t] == if t < q {
                        self.patched_at(g@, subset, data@, old_elems, t)
                    } else {
                        old_elems[t]
                    },
            decreases m - q,
        {
            let local = unravel_index(q, &chunk.shape);
            let coord = offset_index(&chunk.start, &local, &self.grid.array_shape);
            proof {
                assert(coord@ =~= region_index(chunk.start@, chunk.shape@, q as nat));
            }
            if subset.contains(&coord) {
                let rel = relative_index(&coord, &subset.start);
                proof {
                    assert(in_bounds(rel@, subset.shape@));
                    lemma_ravel_bound(rel@, subset.shape@);
                }
                let p = ravel_index(&rel, &subset.shape);
                let dlen = data.len();
                assert(p < dlen);
                let elen = elems.len();
                assert(q < elen);
                elems.set(q as usize, data[p as usize]);
                assert(elems@[q as int] == self.patched_at(g@, subset, data@, old_elems, q as int));
            } else {
                assert(elems@[q as int] == self.patched_at(g@, subset, data@, old_elems, q as int));
            }
            q = q + 1;
        }
        proof {
            assert(elems@ =~= self.patched(g@, subset, data@, old_elems));
            assert forall|t: int| 0 <= t < elems@.len() implies #[trigger] elems@[t] <= self.data_type.max_bits() by {
                if subset.contains_spec(region_index(chunk.start@, chunk.shape@, t as nat)) {
                    let x = region_index(chunk.start@, chunk.shape@, t as nat);
                    let rel = relative(x, subset.start@);
                    assert(in_bounds(rel, subset.shape@));
                    lemma_ravel_bound(rel, subset.shape@);
                }
            }
        }
        elems
    }

    /// One more chunk of a subset write is done: chunk `g`, the `c`-th in
    /// row-major order, now holds its written elements and no other chunk
    /// changed.
    pub proof fn lemma_write_step(
        &self,
        before: Array,
        after: Array,
        g: Seq<u64>,
        c: nat,
        subset: &ArraySubset,
        data: Seq<u64>,
        validate: bool,
    )
        requires
            self.wf(),
            in_bounds(g, self.grid_shape_view()),
            ravel(g, self.grid_shape_view()) == c,
            forall|h: Seq<u64>|
                in_bounds(h, self.grid_shape_view()) ==> #[trigger] before.chunk_value(h, validate)
                    == if ravel(h, self.grid_shape_view()) < c {
                    self.written_chunk(h, subset, data, validate)
                } else {
                    self.chunk_value(h, validate)
                },
            after.chunk_value(g, validate) == self.written_chunk(g, subset, data, validate),
            forall|h: Seq<u64>|
                in_bounds(h, self.grid_shape_view()) && h != g ==> #[trigger] after.chunk_value(
                    h,
                    validate,
                ) == before.chunk_value(h, validate),
        ensures
            forall|h: Seq<u64>|
                in_bounds(h, self.grid_shape_view()) ==> #[trigger] after.chunk_value(h, validate)
                    == if ravel(h, self.grid_shape_view()) < c + 1 {
                    self.written_chunk(h, subset, data, validate)
                } else {
                    self.chunk_value(h, validate)
                },
    {
        assert forall|h: Seq<u64>| in_bounds(h, self.grid_shape_view()) implies #[trigger] after.chunk_value(
            h,
            validate,
        ) == if ravel(h, self.grid_shape_view()) < c + 1 {
            self.written_chunk(h, subset, data, validate)
        } else {
            self.chunk_value(h, validate)
        } by {
            if h != g {
                assert(after.chunk_value(h, validate) == before.chunk_value(h, validate));
                if ravel(h, self.grid_shape_view()) == c {
                    lemma_ravel_injective(h, g, self.grid_shape_view());
                }
            }
        }
    }

    /// The chunk-level effects of a subset write depend on the subset's start
    /// and shape alone.
    pub proof fn lemma_subset_views(
        &self,
        h: Seq<u64>,
        a: &ArraySubset,
        b: &ArraySubset,
        data: Seq<u64>,
        validate: bool,
    )
        requires
            a.start@ == b.start@,
            a.shape@ == b.shape@,
        ensures
            self.chunk_overlaps(h, a) == self.chunk_overlaps(h, b),
            self.written_chunk(h, a, data, validate) == self.written_chunk(h, b, data, validate),
            self.writable(h, a, data, validate) == self.writable(h, b, data, validate),
    {
        assert forall|e: Seq<u64>| #[trigger] self.patched(h, a, data, e) == self.patched(h, b, data, e) by {
            assert(self.patched(h, a, data, e) =~= self.patched(h, b, data, e));
        }
    }

    /// Writes `data`, the elements of `subset` in row-major order, into the
    /// array: each chunk the subset overlaps is decoded (or taken as fill
    /// value), patched and stored again. Fails with `OutOfBounds` where the
    /// subset does not lie inside the array, with `UnexpectedElementCount`
    /// where `data` does not have one element per position of the subset, and
    /// with a codec error where an overlapped chunk does not decode or a shard
    /// would be too large; chunks handled before a failure stay written.
    #[verifier::spinoff_prover]
    #[verifier::rlimit(60)]
    pub fn store_array_subset(
        &mut self,
        subset: &ArraySubset,
        data: &Vec<u64>,
        options: &CodecOptions,
    ) -> (r: Result<(), ArrayError>)
        requires
            old(self).wf(),
            subset.wf(),
            valid_elements(data@, old(self).data_type),
        ensures
            final(self).wf(),
            final(self).grid == old(self).grid,
            final(self).data_type == old(self).data_type,
            final(self).fill_value == old(self).fill_value,
            final(self).codec == old(self).codec,
            final(self).metadata == old(self).metadata,
            !subset.within_spec(old(self).grid.array_shape@) <==> r == Err::<(), ArrayError>(
                ArrayError::OutOfBounds,
            ),
            subset.within_spec(old(self).grid.array_shape@) && data@.len() != num_elements(
                subset.shape@,
            ) <==> r == Err::<(), ArrayError>(ArrayError::UnexpectedElementCount),
            r.is_ok() ==> forall|h: Seq<u64>|
                in_bounds(h, old(self).grid_shape_view()) ==> #[trigger] final(self).chunk_value(
                    h,
                    options.validate_checksums,
                ) == old(self).written_chunk(h, subset, data@, options.validate_checksums),
            subset.within_spec(old(self).grid.array_shape@) && data@.len() == num_elements(
                subset.shape@,
            ) && (forall|h: Seq<u64>|
                in_bounds(h, old(self).grid_shape_view()) && old(self).chunk_overlaps(h, subset)
                    ==> old(self).writable(h, subset, data@, options.validate_checksums)) ==> r.is_ok(),
            r.is_ok() ==> forall|h: Seq<u64>|
                in_bounds(h, old(self).grid_shape_view()) && old(self).chunk_overlaps(h, subset)
                    ==> #[trigger] old(self).writable(h, subset, data@, options.validate_checksums),
    {
        let ghost validate = options.validate_checksums;
        let ghost orig = *self;
        if !subset.inbounds_shape(&self.grid.array_shape) {
            return Err(ArrayError::OutOfBounds);
        }
        proof {
            lemma_num_elements_le(subset.shape@, self.grid.array_shape@);
        }
        let count = match subset.num_elements() {
            Some(n) => n,
            None => {
                proof {
                    assert(false);
                }
                return Err(ArrayError::OutOfBounds);
            },
        };
        if data.len() as u64 != count {
            return Err(ArrayError::UnexpectedElementCount);
        }
        let gshape = self.grid.grid_shape();
        proof {
            lemma_grid_num_elements(self.grid.array_shape@, self.grid.chunk_shape@);
        }
        let n = match checked_num_elements(&gshape) {
            Some(n) => n,
            None => {
                proof {
                    assert(false);
                }
                return Err(ArrayError::OutOfBounds);
            },
        };
        let ghost ok_owed = forall|h: Seq<u64>|
            in_bounds(h, orig.grid_shape_view()) && orig.chunk_overlaps(h, subset)
                ==> orig.writable(h, subset, data@, validate);
        let mut c: u64 = 0;
        while c < n
            invariant
                self.wf(),
                subset.wf(),
                subset.within_spec(self.grid.array_shape@),
                valid_elements(data@, self.data_type),
                data@.len() == num_elements(subset.shape@),
                validate == options.validate_checksums,
                orig.wf(),
                orig == *old(self),
                self.metadata == orig.metadata,
                self.grid == orig.grid,
                self.data_type == orig.data_type,
                self.fill_value == orig.fill_value,
                self.codec == orig.codec,
                gshape@ == self.grid_shape_view(),
                all_positive(gshape@),
                n == num_elements(gshape@),
                c <= n,
                forall|h: Seq<u64>|
                    in_bounds(h, gshape@) && ravel(h, gshape@) < c && orig.chunk_overlaps(h, subset)
                        ==> #[trigger] orig.writable(h, subset, data@, validate),
                ok_owed == (forall|h: Seq<u64>|
                    in_bounds(h, orig.grid_shape_view()) && orig.chunk_overlaps(h, subset)
                        ==> orig.writable(h, subset, data@, validate)),
                forall|h: Seq<u64>|
                    in_bounds(h, gshape@) ==> #[trigger] self.chunk_value(h, validate) == if ravel(
                        h,
                        gshape@,
                    ) < c {
                        orig.written_chunk(h, subset, data@, validate)
                    } else {
                        orig.chunk_value(h, validate)
                    },
            decreases n - c,
        {
            let g = unravel_index(c, &gshape);
            proof {
                lemma_ravel_unravel(c as nat, gshape@);
            }
            let chunk = match self.grid.chunk_subset_bounded(&g) {
                Ok(s) => s,
                Err(_) => {
                    proof {
                        assert(false);
                    }
                    return Err(ArrayError::OutOfBounds);
                },
            };
            let overlaps = chunk.overlap(subset).is_some();
            proof {
                orig.lemma_overlap_matches(g@, &chunk, subset);
            }
            if overlaps {
                let elems = match self.retrieve_chunk(&g, options) {
                    Ok(v) => v,
                    Err(e) => {
                        proof {
                            assert(!orig.writable(g@, subset, data@, validate));
                        }
                        return Err(e);
                    },
                };
                let ghost old_elems = elems@;
                proof {
                    assert(old_elems == orig.chunk_value(g@, validate).unwrap());
                    self.lemma_chunk_value_len(g@, validate);
                }
                let elems = self.patch_chunk(&g, &chunk, subset, data, elems);
                let ghost mid = *self;
                match self.store_chunk(&g, &elems) {
                    Ok(()) => {},
                    Err(e) => {
                        proof {
                            assert(orig.patched(g@, subset, data@, old_elems) =~= elems@);
                            assert(!orig.writable(g@, subset, data@, validate));
                        }
                        return Err(e);
                    },
                }
                proof {
                    assert(self.chunk_value(g@, validate) == Some(elems@));
                    assert(orig.patched(g@, subset, data@, old_elems) =~= elems@);
                    assert(self.chunk_value(g@, validate) == orig.written_chunk(g@, subset, data@, validate));
                    orig.lemma_write_step(mid, *self, g@, c as nat, subset, data@, validate);
                    assert(orig.writable(g@, subset, data@, validate));
                    assert forall|h: Seq<u64>|
                        in_bounds(h, gshape@) && ravel(h, gshape@) < c + 1 && orig.chunk_overlaps(h, subset)
                            implies #[trigger] orig.writable(h, subset, data@, validate) by {
                        if ravel(h, gshape@) == c {
                            lemma_ravel_injective(h, g@, gshape@);
                        }
                    }
                }
            } else {
                proof {
                    assert(self.chunk_value(g@, validate) == orig.chunk_value(g@, validate));
                    orig.lemma_write_step(*self, *self, g@, c as nat, subset, data@, validate);
                    assert forall|h: Seq<u64>|
                        in_bounds(h, gshape@) && ravel(h, gshape@) < c + 1 && orig.chunk_overlaps(h, subset)
                            implies #[trigger] orig.writable(h, subset, data@, validate) by {
                        if ravel(h, gshape@) == c {
                            lemma_ravel_injective(h, g@, gshape@);
                        }
                    }
                }
            }
            c = c + 1;
        }
        proof {
            assert forall|h: Seq<u64>| in_bounds(h, orig.grid_shape_view()) implies #[trigger] self.chunk_value(
                h,
                validate,
            ) == orig.written_chunk(h, subset, data@, validate) by {
                lemma_ravel_bound(h, gshape@);
            }
            assert forall|h: Seq<u64>|
                in_bounds(h, orig.grid_shape_view()) && orig.chunk_overlaps(h, subset)
                    implies #[trigger] orig.writable(h, subset, data@, validate) by {
                lemma_ravel_bound(h, gshape@);
            }
        }
        Ok(())
    }

    /// After `data` is written over `subset`, each element of the subset reads
    /// as its written value and every other element keeps its value, wherever
    /// the chunk holding it decoded before the write.
    pub proof fn lemma_write_then_read(
        &self,
        after: Array,
        subset: &ArraySubset,
        data: Seq<u64>,
        validate: bool,
        idx: Seq<u64>,
    )
        requires
            self.wf(),
            after.grid == self.grid,
            subset.wf(),
            subset.within_spec(self.grid.array_shape@),
            data.len() == num_elements(subset.shape@),
            forall|h: Seq<u64>|
                in_bounds(h, self.grid_shape_view()) ==> #[trigger] after.chunk_value(h, validate)
                    == self.written_chunk(h, subset, data, validate),
            in_bounds(idx, self.grid.array_shape@),
            self.readable(idx, validate),
        ensures
            after.readable(idx, validate),
            subset.contains_spec(idx) ==> after.element_at(idx, validate) == data[ravel(
                relative(idx, subset.start@),
                subset.shape@,
            ) as int],
            !subset.contains_spec(idx) ==> after.element_at(idx, validate) == self.element_at(
                idx,
                validate,
            ),
    {
        let a = self.grid.array_shape@;
        let c = self.grid.chunk_shape@;
        lemma_chunk_of_in_grid(a, c, idx);
        let g = chunk_of(idx, c);
        let u = local_of(idx, c);
        let cs = self.chunk_shape_of(g);
        crate::shard_codec::lemma_chunk_local(a, c, g, u);
        lemma_ravel_bound(u, cs);
        let q = ravel(u, cs);
        assert(region_index(inner_start(c, g), cs, q) == idx) by {
            assert(Seq::new(a.len(), |i: int| (g[i] * c[i] + u[i]) as u64) =~= idx);
        }
        if !self.chunk_overlaps(g, subset) {
            if subset.contains_spec(idx) {
                crate::shard_codec::lemma_chunk_geometry(a, c, g);
                assert forall|i: int| 0 <= i < g.len() implies {
                    let lo = g[i] * c[i];
                    let hi = lo + cs[i];
                    #[trigger] subset.start@[i] < hi && lo < subset.end_spec(i) && subset.start@[i]
                        < subset.end_spec(i)
                } by {
                    assert(idx[i] == g[i] * c[i] + u[i]);
                }
                assert(false);
            }
        }
    }
}

/// What a shard index cache holds for one chunk.
#[derive(Clone, Debug)]
pub enum CachedIndex {
    /// The shard was never written: every inner chunk is fill value.
    Absent,
    /// The shard's decoded index table.
    Index(Vec<u64>),
}

/// Decoded shard indices, by row-major chunk index, so that repeated reads of
/// inner chunks from one shard decode its index once. A cache describes the
/// array it was filled from: after the array is written it is replaced.
pub struct ShardIndexCache {
    entries: Vec<Option<CachedIndex>>,
}

impl ShardIndexCache {
    /// Every entry describes the array's store as it is.
    pub closed spec fn valid_for(&self, array: &Array, validate: bool) -> bool {
        &&& self.entries@.len() == array.store@.len()
        &&& forall|c: int|
            0 <= c < self.entries@.len() ==> match #[trigger] self.entries@[c] {
                None => true,
                Some(CachedIndex::Absent) => array.store@[c].is_none(),
                Some(CachedIndex::Index(idx)) => match array.store@[c] {
                    None => false,
                    Some(b) => {
                        let sc = array.codec->Sharded_0;
                        let g = unravel(c as nat, array.grid_shape_view());
                        &&& array.codec is Sharded
                        &&& decode_index_spec(
                            b@,
                            sc.num_inner(array.chunk_shape_of(g)),
                            sc.index_codec,
                            validate,
                        ) == Ok::<Seq<u64>, CodecError>(idx@)
                        &&& idx@.len() == 2 * sc.num_inner(array.chunk_shape_of(g))
                    },
                },
            }
    }

    /// An empty cache for `array`.
    pub fn new(array: &Array) -> (r: ShardIndexCache)
        ensures
            forall|v: bool| #[trigger] r.valid_for(array, v),
    {
        let mut entries: Vec<Option<CachedIndex>> = Vec::new();
        let mut c: usize = 0;
        while c < array.store.len()
            invariant
                c <= array.store@.len(),
                entries@.len() == c,
                forall|t: int| 0 <= t < c ==> #[trigger] entries@[t].is_none(),
            decreases array.store@.len() - c,
        {
            entries.push(None);
            c = c + 1;
        }
        ShardIndexCache { entries }
    }
}

impl Array {
    /// Inner chunk `j` of shard `g`, as `retrieve_inner_chunk` reads it, with
    /// the shard's index taken from `cache` where it is there and recorded in
    /// it otherwise.
    pub fn retrieve_inner_chunk_cached(
        &self,
        cache: &mut ShardIndexCache,
        g: &Vec<u64>,
        j: u64,
        options: &CodecOptions,
    ) -> (r: Result<Vec<u64>, ArrayError>)
        requires
            self.wf(),
            old(cache).valid_for(self, options.validate_checksums),
        ensures
            final(cache).valid_for(self, options.validate_checksums),
            !(self.codec is Sharded) ==> r == Err::<Vec<u64>, ArrayError>(
                ArrayError::IncompatibleConfiguration,
            ),
            self.codec is Sharded && !in_bounds(g@, self.grid_shape_view()) ==> r == Err::<
                Vec<u64>,
                ArrayError,
            >(ArrayError::OutOfBounds),
            self.codec is Sharded && in_bounds(g@, self.grid_shape_view()) ==> (j
                >= self.codec->Sharded_0.num_inner(self.chunk_shape_of(g@)) <==> r == Err::<
                Vec<u64>,
                ArrayError,
            >(ArrayError::OutOfBounds)),
            self.codec is Sharded && in_bounds(g@, self.grid_shape_view()) && j
                < self.codec->Sharded_0.num_inner(self.chunk_shape_of(g@)) ==> self.inner_outcome(
                g@,
                j as nat,
                options.validate_checksums,
                r,
            ),
    {
        let ghost validate = options.validate_checksums;
        let (sc, cs, n, key) = match self.locate_inner(g, j) {
            Ok(t) => t,
            Err(e) => {
                return Err(e);
            },
        };
        proof {
            lemma_grid_num_elements(self.grid.array_shape@, self.grid.chunk_shape@);
            lemma_unravel_ravel(g@, self.grid_shape_view());
        }
        let elen = cache.entries.len();
        assert(key < elen);
        let cached: Option<Vec<u64>> = match &cache.entries[key] {
            Some(CachedIndex::Index(idx)) => Some(copy_u64s(idx)),
            Some(CachedIndex::Absent) => Some(Vec::new()),
            None => None,
        };
        let idx = match cached {
            Some(i) => i,
            None => {
                let ghost before = cache.entries@;
                match &self.store[key] {
                    None => {
                        cache.entries.set(key, Some(CachedIndex::Absent));
                        proof {
                            assert forall|c: int| 0 <= c < cache.entries@.len() implies c != key
                                ==> #[trigger] cache.entries@[c] == before[c] by {}
                        }
                        Vec::new()
                    },
                    Some(b) => {
                        match decode_shard_index(b, n, sc.index_codec, options) {
                            Ok(i) => {
                                cache.entries.set(key, Some(CachedIndex::Index(copy_u64s(&i))));
                                proof {
                                    assert forall|c: int| 0 <= c < cache.entries@.len() implies c
                                        != key ==> #[trigger] cache.entries@[c] == before[c] by {}
                                }
                                i
                            },
                            Err(e) => {
                                proof {
                                    reveal(Array::chunk_value);
                                }
                                return Err(ArrayError::Codec(e));
                            },
                        }
                    },
                }
            },
        };
        self.inner_chunk_with_index(sc, g, &cs, j, n, key, &idx, options)
    }
}

impl Array {
    pub open spec fn metadata_view(&self) -> Option<Seq<u8>> {
        match self.metadata {
            Some(m) => Some(m@),
            None => None,
        }
    }

    /// Writes the array's metadata document, replacing any earlier one.
    pub fn store_metadata(&mut self, document: Vec<u8>)
        ensures
            final(self).metadata_view() == Some(document@),
            final(self).grid == old(self).grid,
            final(self).data_type == old(self).data_type,
            final(self).fill_value == old(self).fill_value,
            final(self).codec == old(self).codec,
            final(self).store == old(self).store,
    {
        self.metadata = Some(document);
    }

    /// Removes the array's metadata document.
    pub fn erase_metadata(&mut self)
        ensures
            final(self).metadata.is_none(),
            final(self).grid == old(self).grid,
            final(self).data_type == old(self).data_type,
            final(self).fill_value == old(self).fill_value,
            final(self).codec == old(self).codec,
            final(self).store == old(self).store,
    {
        self.metadata = None;
    }

    /// Whether the metadata document is written.
    pub fn has_metadata(&self) -> (r: bool)
        ensures
            r == self.metadata.is_some(),
    {
        self.metadata.is_some()
    }
}

/// `idx - start`, for an index at or after `start`.
pub open spec fn relative(idx: Seq<u64>, start: Seq<u64>) -> Seq<u64> {
    Seq::new(idx.len(), |i: int| (idx[i] - start[i]) as u64)
}

/// `idx - start` for an index inside a subset that starts at `start`.
pub fn relative_index(idx: &Vec<u64>, start: &Vec<u64>) -> (r: Vec<u64>)
    requires
        idx@.len() == start@.len(),
        forall|i: int| 0 <= i < idx@.len() ==> start@[i] <= idx@[i],
    ensures
        r@ == relative(idx@, start@),
{
    let mut out: Vec<u64> = Vec::new();
    let mut i: usize = 0;
    while i < idx.len()
        invariant
            idx@.len() == start@.len(),
            forall|j: int| 0 <= j < idx@.len() ==> start@[j] <= idx@[j],
            i <= idx@.len(),
            out@ =~= relative(idx@, start@).take(i as int),
        decreases idx@.len() - i,
    {
        out.push(idx[i] - start[i]);
        i = i + 1;
    }
    proof {
        assert(relative(idx@, start@).take(i as int) =~= relative(idx@, start@));
    }
    out
}

/// The largest bit pattern of an element of `dt`.
pub fn max_bits(dt: DataType) -> (r: u64)
    ensures
        r == dt.max_bits(),
{
    let size = dt.size();
    if size == 1 {
        0xff
    } else if size == 2 {
        0xffff
    } else if size == 4 {
        0xffff_ffff
    } else {
        u64::MAX
    }
}

} // verus!
