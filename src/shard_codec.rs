//! The sharding codec on elements: a chunk is cut into inner chunks on a
//! regular grid, each encoded by the inner chain, and packed into a shard.
use vstd::prelude::*;
use crate::codec::{
    chain_decode_spec, chain_encode_spec, valid_elements, lemma_chain_decode_len, CodecChain,
    CodecError, CodecOptions, DataType,
};
use crate::grid::{
    ChunkGrid, grid_shape_spec, chunk_shape_spec, chunk_of, local_of, grid_wf,
    lemma_chunk_start_below, lemma_chunk_of_in_grid, lemma_grid_num_elements,
};
use crate::codec::lemma_chain_round_trip;
use crate::sharding::lemma_shard_round_trip;
use crate::index::lemma_ravel_unravel;
use vstd::arithmetic::div_mod::lemma_fundamental_div_mod_converse;
use crate::index::{
    all_positive, in_bounds, num_elements, ravel, unravel, checked_num_elements, copy_u64s,
    ravel_index, unravel_index, lemma_ravel_bound, lemma_unravel_in_bounds, lemma_unravel_ravel,
};

use crate::region::{region_elems, region_index, extract_region, lemma_region_index_in_bounds, lemma_num_elements_le};
use crate::sharding::{
    chunks_view, decode_index_spec, decode_shard_index, encode_shard, encode_shard_spec,
    index_encoded_len, inner_bytes_spec, inner_chunk_bytes, opt_bytes, total_len, ShardIndexCodec,
};

verus! {

/// The sharding codec: inner chunks of `inner_shape`, each encoded by
/// `inner_chain`, and an index encoded by `index_codec`. Inner chunks holding
/// only the fill value are left out of the shard where `omit_fill_chunks` is set.
#[derive(Clone, Debug)]
pub struct ShardingCodec {
    pub inner_shape: Vec<u64>,
    pub inner_chain: CodecChain,
    pub index_codec: ShardIndexCodec,
    pub omit_fill_chunks: bool,
}

/// The origin of the inner chunk at grid position `g`.
pub open spec fn inner_start(inner_shape: Seq<u64>, g: Seq<u64>) -> Seq<u64> {
    Seq::new(g.len(), |i: int| (g[i] * inner_shape[i]) as u64)
}

/// Every element of `s` is `fill`.
pub open spec fn all_fill(s: Seq<u64>, fill: u64) -> bool {
    forall|i: int| 0 <= i < s.len() ==> #[trigger] s[i] == fill
}

/// `n` copies of `fill`.
pub open spec fn filled(fill: u64, n: nat) -> Seq<u64> {
    Seq::new(n, |i: int| fill)
}

impl ShardingCodec {
    /// The codec fits shards of `shard_shape`.
    pub open spec fn wf_for(&self, shard_shape: Seq<u64>) -> bool {
        &&& self.inner_shape@.len() == shard_shape.len()
        &&& all_positive(self.inner_shape@)
        &&& all_positive(shard_shape)
        &&& num_elements(shard_shape) <= u64::MAX
        &&& 16 * num_elements(self.inner_grid_spec(shard_shape)) + 4 <= u64::MAX
    }

    pub open spec fn inner_grid_spec(&self, shard_shape: Seq<u64>) -> Seq<u64> {
        grid_shape_spec(shard_shape, self.inner_shape@)
    }

    /// The number of inner chunks of a shard.
    pub open spec fn num_inner(&self, shard_shape: Seq<u64>) -> nat {
        num_elements(self.inner_grid_spec(shard_shape))
    }

    /// The grid position of inner chunk `j`.
    pub open spec fn inner_pos(&self, shard_shape: Seq<u64>, j: nat) -> Seq<u64> {
        unravel(j, self.inner_grid_spec(shard_shape))
    }

    /// The shape of inner chunk `j`, truncated at the shard's edge.
    pub open spec fn inner_chunk_shape(&self, shard_shape: Seq<u64>, j: nat) -> Seq<u64> {
        chunk_shape_spec(shard_shape, self.inner_shape@, self.inner_pos(shard_shape, j))
    }

    /// The elements of inner chunk `j` of a shard whose elements are `elems`.
    pub open spec fn inner_elements(&self, elems: Seq<u64>, shard_shape: Seq<u64>, j: nat) -> Seq<
        u64,
    > {
        region_elems(
            elems,
            shard_shape,
            inner_start(self.inner_shape@, self.inner_pos(shard_shape, j)),
            self.inner_chunk_shape(shard_shape, j),
        )
    }

    /// The encoded inner chunks of a shard, `None` for those left out.
    pub open spec fn inner_chunks_spec(
        &self,
        elems: Seq<u64>,
        shard_shape: Seq<u64>,
        dt: DataType,
        fill: u64,
    ) -> Seq<Option<Seq<u8>>> {
        Seq::new(
            self.num_inner(shard_shape),
            |j: int|
                {
                    let sub = self.inner_elements(elems, shard_shape, j as nat);
                    if self.omit_fill_chunks && all_fill(sub, fill) {
                        None
                    } else {
                        Some(chain_encode_spec(sub, dt, self.inner_chain))
                    }
                },
        )
    }

    /// The shard's bytes fit `u64` offsets.
    pub open spec fn fits(&self, elems: Seq<u64>, shard_shape: Seq<u64>, dt: DataType, fill: u64) -> bool {
        index_encoded_len(self.num_inner(shard_shape), self.index_codec.index_chain) + total_len(
            self.inner_chunks_spec(elems, shard_shape, dt, fill),
        ) < u64::MAX
    }

    /// The bytes of a shard whose elements are `elems`.
    pub open spec fn encode_spec(
        &self,
        elems: Seq<u64>,
        shard_shape: Seq<u64>,
        dt: DataType,
        fill: u64,
    ) -> Seq<u8> {
        encode_shard_spec(self.inner_chunks_spec(elems, shard_shape, dt, fill), self.index_codec)
    }

    /// The elements of inner chunk `j` given the shard's index table: the fill
    /// value where it is not stored.
    pub open spec fn inner_decode_spec(
        &self,
        shard: Seq<u8>,
        idx: Seq<u64>,
        shard_shape: Seq<u64>,
        j: nat,
        dt: DataType,
        fill: u64,
        validate: bool,
    ) -> Result<Seq<u64>, CodecError> {
        let n = num_elements(self.inner_chunk_shape(shard_shape, j));
        match inner_bytes_spec(shard, idx, j as int) {
            Err(e) => Err(e),
            Ok(None) => Ok(filled(fill, n)),
            Ok(Some(b)) => chain_decode_spec(b, n, dt, self.inner_chain, validate),
        }
    }

    /// The shard's index decodes and so does every inner chunk.
    pub open spec fn decodes(
        &self,
        shard: Seq<u8>,
        shard_shape: Seq<u64>,
        dt: DataType,
        fill: u64,
        validate: bool,
    ) -> bool {
        let idx = decode_index_spec(shard, self.num_inner(shard_shape), self.index_codec, validate);
        &&& idx.is_ok()
        &&& forall|j: nat|
            j < self.num_inner(shard_shape) ==> #[trigger] self.inner_decode_spec(
                shard,
                idx.unwrap(),
                shard_shape,
                j,
                dt,
                fill,
                validate,
            ).is_ok()
    }

    /// The element at row-major position `l` of a decoded shard.
    pub open spec fn decoded_element(
        &self,
        shard: Seq<u8>,
        shard_shape: Seq<u64>,
        dt: DataType,
        fill: u64,
        validate: bool,
        l: nat,
    ) -> u64 {
        let idx = decode_index_spec(
            shard,
            self.num_inner(shard_shape),
            self.index_codec,
            validate,
        ).unwrap();
        let coord = unravel(l, shard_shape);
        let g = chunk_of(coord, self.inner_shape@);
        let j = ravel(g, self.inner_grid_spec(shard_shape));
        let inner = self.inner_decode_spec(shard, idx, shard_shape, j, dt, fill, validate).unwrap();
        inner[ravel(local_of(coord, self.inner_shape@), chunk_shape_spec(shard_shape, self.inner_shape@, g)) as int]
    }

    /// The elements of a decoded shard.
    pub open spec fn decode_spec(
        &self,
        shard: Seq<u8>,
        shard_shape: Seq<u64>,
        dt: DataType,
        fill: u64,
        validate: bool,
    ) -> Seq<u64> {
        Seq::new(
            num_elements(shard_shape),
            |l: int| self.decoded_element(shard, shard_shape, dt, fill, validate, l as nat),
        )
    }

    /// The grid of inner chunks of a shard.
    pub fn inner_grid(&self, shard_shape: &Vec<u64>) -> (r: ChunkGrid)
        requires
            self.wf_for(shard_shape@),
        ensures
            r.wf(),
            r.array_shape@ == shard_shape@,
            r.chunk_shape@ == self.inner_shape@,
    {
        ChunkGrid { array_shape: copy_u64s(shard_shape), chunk_shape: copy_u64s(&self.inner_shape) }
    }

    /// Encodes the elements of a shard of `shard_shape`; fails where the
    /// shard's size would not fit `u64` offsets.
    pub fn encode(&self, elems: &Vec<u64>, shard_shape: &Vec<u64>, dt: DataType, fill: u64) -> (r:
        Result<Vec<u8>, CodecError>)
        requires
            self.wf_for(shard_shape@),
            elems@.len() == num_elements(shard_shape@),
            valid_elements(elems@, dt),
        ensures
            r.is_ok() <==> self.fits(elems@, shard_shape@, dt, fill),
            r.is_ok() ==> r.unwrap()@ == self.encode_spec(elems@, shard_shape@, dt, fill),
            r.is_err() ==> r == Err::<Vec<u8>, CodecError>(CodecError::ShardTooLarge),
    {
        let grid = self.inner_grid(shard_shape);
        let gshape = grid.grid_shape();
        proof {
            lemma_grid_num_elements(grid.array_shape@, grid.chunk_shape@);
        }
        let n = match checked_num_elements(&gshape) {
            Some(n) => n,
            None => {
                proof {
                    assert(false);
                }
                return Err(CodecError::ShardTooLarge);
            },
        };
        let ghost all = self.inner_chunks_spec(elems@, shard_shape@, dt, fill);
        let mut chunks: Vec<Option<Vec<u8>>> = Vec::new();
        let mut total: u64 = 0;
        let mut overflow = false;
        let mut j: u64 = 0;
        while j < n
            invariant
                self.wf_for(shard_shape@),
                elems@.len() == num_elements(shard_shape@),
                valid_elements(elems@, dt),
                grid.wf(),
                grid.array_shape@ == shard_shape@,
                grid.chunk_shape@ == self.inner_shape@,
                gshape@ == grid.grid_shape_view(),
                all_positive(gshape@),
                n == num_elements(gshape@),
                all == self.inner_chunks_spec(elems@, shard_shape@, dt, fill),
                j <= n,
                chunks_view(chunks@) =~= all.take(j as int),
                !overflow ==> total == total_len(chunks_view(chunks@)),
                overflow ==> total_len(chunks_view(chunks@)) > u64::MAX,
            decreases n - j,
        {
            let g = unravel_index(j, &gshape);
            let sub = match grid.chunk_subset_bounded(&g) {
                Ok(s) => s,
                Err(_) => {
                    proof {
                        assert(false);
                    }
                    return Err(CodecError::ShardTooLarge);
                },
            };
            let e = extract_region(elems, shard_shape, &sub);
            proof {
                assert(sub.start@ =~= inner_start(self.inner_shape@, g@));
                assert(e@ == self.inner_elements(elems@, shard_shape@, j as nat));
                assert forall|k: int| 0 <= k < e@.len() implies #[trigger] e@[k] <= dt.max_bits() by {
                    lemma_region_index_in_bounds(shard_shape@, sub.start@, sub.shape@, k as nat);
                    lemma_ravel_bound(region_index(sub.start@, sub.shape@, k as nat), shard_shape@);
                }
            }
            let ghost before = chunks_view(chunks@);
            if self.omit_fill_chunks && is_all_fill(&e, fill) {
                chunks.push(None);
                proof {
                    assert(chunks_view(chunks@).drop_last() =~= before);
                }
            } else {
                let b = self.inner_chain.encode(&e, dt);
                let blen = b.len() as u64;
                if !overflow {
                    match total.checked_add(blen) {
                        Some(t) => {
                            total = t;
                        },
                        None => {
                            overflow = true;
                        },
                    }
                }
                chunks.push(Some(b));
                proof {
                    assert(chunks_view(chunks@).drop_last() =~= before);
                }
            }
            j = j + 1;
        }
        proof {
            assert(all.take(n as int) =~= all);
        }
        let isz: u64 = if self.index_codec.index_chain.checksum {
            16 * n + 4
        } else {
            16 * n
        };
        if overflow || total >= u64::MAX - isz {
            return Err(CodecError::ShardTooLarge);
        }
        Ok(encode_shard(&chunks, self.index_codec))
    }

    /// Decodes inner chunk `j` of a shard given the shard's decoded index
    /// table, reading only that inner chunk's bytes.
    pub fn decode_inner(
        &self,
        shard: &Vec<u8>,
        idx: &Vec<u64>,
        shard_shape: &Vec<u64>,
        j: u64,
        dt: DataType,
        fill: u64,
        options: &CodecOptions,
    ) -> (r: Result<Vec<u64>, CodecError>)
        requires
            self.wf_for(shard_shape@),
            j < self.num_inner(shard_shape@),
            idx@.len() == 2 * self.num_inner(shard_shape@),
        ensures
            match r {
                Ok(v) => self.inner_decode_spec(
                    shard@,
                    idx@,
                    shard_shape@,
                    j as nat,
                    dt,
                    fill,
                    options.validate_checksums,
                ) == Ok::<Seq<u64>, CodecError>(v@),
                Err(e) => self.inner_decode_spec(
                    shard@,
                    idx@,
                    shard_shape@,
                    j as nat,
                    dt,
                    fill,
                    options.validate_checksums,
                ) == Err::<Seq<u64>, CodecError>(e),
            },
    {
        let grid = self.inner_grid(shard_shape);
        let gshape = grid.grid_shape();
        proof {
            lemma_grid_num_elements(grid.array_shape@, grid.chunk_shape@);
        }
        let g = unravel_index(j, &gshape);
        let cs = match grid.chunk_shape_at(&g) {
            Ok(cs) => cs,
            Err(_) => {
                proof {
                    assert(false);
                }
                return Err(CodecError::InvalidShardIndex);
            },
        };
        let m = match checked_num_elements(&cs) {
            Some(m) => m,
            None => {
                proof {
                    assert(false);
                }
                return Err(CodecError::InvalidShardIndex);
            },
        };
        let ilen = idx.len();
        assert(j < ilen);
        let bytes = match inner_chunk_bytes(shard, idx, j as usize) {
            Ok(b) => b,
            Err(e) => {
                return Err(e);
            },
        };
        match bytes {
            None => Ok(fill_elements(fill, m)),
            Some(b) => self.inner_chain.decode(&b, m, dt, options),
        }
    }

    /// Decodes a whole shard of `shard_shape`.
    #[verifier::spinoff_prover]
    #[verifier::rlimit(80)]
    pub fn decode(
        &self,
        shard: &Vec<u8>,
        shard_shape: &Vec<u64>,
        dt: DataType,
        fill: u64,
        options: &CodecOptions,
    ) -> (r: Result<Vec<u64>, CodecError>)
        requires
            self.wf_for(shard_shape@),
            fill <= dt.max_bits(),
        ensures
            r.is_ok() <==> self.decodes(shard@, shard_shape@, dt, fill, options.validate_checksums),
            r.is_ok() ==> r.unwrap()@ == self.decode_spec(
                shard@,
                shard_shape@,
                dt,
                fill,
                options.validate_checksums,
            ) && valid_elements(r.unwrap()@, dt),
            r.is_err() ==> {
                let idx = decode_index_spec(
                    shard@,
                    self.num_inner(shard_shape@),
                    self.index_codec,
                    options.validate_checksums,
                );
                idx == Err::<Seq<u64>, CodecError>(r.unwrap_err()) || (idx.is_ok() && exists|j: nat|
                    j < self.num_inner(shard_shape@) && #[trigger] self.inner_decode_spec(
                        shard@,
                        idx.unwrap(),
                        shard_shape@,
                        j,
                        dt,
                        fill,
                        options.validate_checksums,
                    ) == Err::<Seq<u64>, CodecError>(r.unwrap_err()))
            },
    {
        let ghost validate = options.validate_checksums;
        let grid = self.inner_grid(shard_shape);
        let gshape = grid.grid_shape();
        proof {
            lemma_grid_num_elements(grid.array_shape@, grid.chunk_shape@);
        }
        let n = match checked_num_elements(&gshape) {
            Some(n) => n,
            None => {
                proof {
                    assert(false);
                }
                return Err(CodecError::InvalidShardIndex);
            },
        };
        let idx = match decode_shard_index(shard, n, self.index_codec, options) {
            Ok(idx) => idx,
            Err(e) => {
                return Err(e);
            },
        };
        let mut decoded: Vec<Vec<u64>> = Vec::new();
        let mut j: u64 = 0;
        while j < n
            invariant
                self.wf_for(shard_shape@),
                fill <= dt.max_bits(),
                validate == options.validate_checksums,
                n == self.num_inner(shard_shape@),
                decode_index_spec(shard@, n as nat, self.index_codec, validate) == Ok::<
                    Seq<u64>,
                    CodecError,
                >(idx@),
                idx@.len() == 2 * n,
                j <= n,
                decoded@.len() == j,
                forall|t: int|
                    0 <= t < j ==> self.inner_decode_spec(
                        shard@,
                        idx@,
                        shard_shape@,
                        t as nat,
                        dt,
                        fill,
                        validate,
                    ) == Ok::<Seq<u64>, CodecError>((#[trigger] decoded@[t])@),
            decreases n - j,
        {
            let e = match self.decode_inner(shard, &idx, shard_shape, j, dt, fill, options) {
                Ok(e) => e,
                Err(err) => {
                    proof {
                        assert(self.inner_decode_spec(shard@, idx@, shard_shape@, j as nat, dt, fill, validate)
                            == Err::<Seq<u64>, CodecError>(err));
                    }
                    return Err(err);
                },
            };
            decoded.push(e);
            j = j + 1;
        }
        proof {
            assert forall|t: nat| t < n implies #[trigger] self.inner_decode_spec(
                shard@,
                idx@,
                shard_shape@,
                t,
                dt,
                fill,
                validate,
            ).is_ok() by {
                assert(self.inner_decode_spec(shard@, idx@, shard_shape@, t, dt, fill, validate)
                    == Ok::<Seq<u64>, CodecError>(decoded@[t as int]@));
            }
        }
        let total = match checked_num_elements(shard_shape) {
            Some(t) => t,
            None => {
                proof {
                    assert(false);
                }
                return Err(CodecError::InvalidShardIndex);
            },
        };
        let mut out: Vec<u64> = Vec::new();
        let mut l: u64 = 0;
        while l < total
            invariant
                self.wf_for(shard_shape@),
                fill <= dt.max_bits(),
                validate == options.validate_checksums,
                grid.wf(),
                grid.array_shape@ == shard_shape@,
                grid.chunk_shape@ == self.inner_shape@,
                gshape@ == grid.grid_shape_view(),
                all_positive(gshape@),
                num_elements(gshape@) <= num_elements(shard_shape@),
                n == self.num_inner(shard_shape@),
                total == num_elements(shard_shape@),
                decode_index_spec(shard@, n as nat, self.index_codec, validate) == Ok::<
                    Seq<u64>,
                    CodecError,
                >(idx@),
                decoded@.len() == n,
                forall|t: int|
                    0 <= t < n ==> self.inner_decode_spec(
                        shard@,
                        idx@,
                        shard_shape@,
                        t as nat,
                        dt,
                        fill,
                        validate,
                    ) == Ok::<Seq<u64>, CodecError>((#[trigger] decoded@[t])@),
                l <= total,
                out@ =~= self.decode_spec(shard@, shard_shape@, dt, fill, validate).take(l as int),
                valid_elements(out@, dt),
            decreases total - l,
        {
            let coord = unravel_index(l, shard_shape);
            let g = grid.chunk_indices_of(&coord);
            let loc = grid.local_indices_of(&coord);
            proof {
                lemma_chunk_of_in_grid(grid.array_shape@, grid.chunk_shape@, coord@);
                lemma_unravel_ravel(g@, gshape@);
            }
            let jj = ravel_index(&g, &gshape);
            let cs = match grid.chunk_shape_at(&g) {
                Ok(cs) => cs,
                Err(_) => {
                    proof {
                        assert(false);
                    }
                    return Err(CodecError::InvalidShardIndex);
                },
            };
            proof {
                lemma_ravel_bound(g@, gshape@);
                lemma_ravel_bound(loc@, cs@);
                let inner = self.inner_decode_spec(shard@, idx@, shard_shape@, jj as nat, dt, fill, validate);
                assert(self.inner_chunk_shape(shard_shape@, jj as nat) == cs@);
                assert(inner == Ok::<Seq<u64>, CodecError>(decoded@[jj as int]@));
                match inner_bytes_spec(shard@, idx@, jj as int) {
                    Ok(Some(b)) => {
                        lemma_chain_decode_len(b, num_elements(cs@), dt, self.inner_chain, validate);
                    },
                    _ => {},
                }
                assert(decoded@[jj as int]@.len() == num_elements(cs@));
            }
            let p = ravel_index(&loc, &cs);
            let inner_vec = &decoded[jj as usize];
            let ilen = inner_vec.len();
            assert(p < ilen);
            let v = inner_vec[p as usize];
            proof {
                match inner_bytes_spec(shard@, idx@, jj as int) {
                    Ok(Some(b)) => {
                        lemma_chain_decode_len(b, num_elements(cs@), dt, self.inner_chain, validate);
                    },
                    _ => {},
                }
                assert(v <= dt.max_bits());
                assert(v == self.decoded_element(shard@, shard_shape@, dt, fill, validate, l as nat));
            }
            out.push(v);
            l = l + 1;
        }
        proof {
            assert(self.decode_spec(shard@, shard_shape@, dt, fill, validate).take(total as int)
                =~= self.decode_spec(shard@, shard_shape@, dt, fill, validate));
        }
        Ok(out)
    }
}

/// `n` copies of `fill`.
pub fn fill_elements(fill: u64, n: u64) -> (r: Vec<u64>)
    ensures
        r@ == filled(fill, n as nat),
{
    let mut out: Vec<u64> = Vec::new();
    let mut i: u64 = 0;
    while i < n
        invariant
            i <= n,
            out@ =~= filled(fill, i as nat),
        decreases n - i,
    {
        out.push(fill);
        i = i + 1;
    }
    out
}

/// Whether every element is `fill`.
pub fn is_all_fill(elems: &Vec<u64>, fill: u64) -> (r: bool)
    ensures
        r == all_fill(elems@, fill),
{
    let mut i: usize = 0;
    while i < elems.len()
        invariant
            i <= elems@.len(),
            forall|k: int| 0 <= k < i ==> #[trigger] elems@[k] == fill,
        decreases elems@.len() - i,
    {
        if elems[i] != fill {
            return false;
        }
        i = i + 1;
    }
    true
}

/// A chunk of a grid has a positive shape and ends inside the array.
pub proof fn lemma_chunk_geometry(a: Seq<u64>, c: Seq<u64>, g: Seq<u64>)
    requires
        grid_wf(a, c),
        in_bounds(g, grid_shape_spec(a, c)),
    ensures
        all_positive(chunk_shape_spec(a, c, g)),
        forall|i: int|
            0 <= i < a.len() ==> g[i] * c[i] + #[trigger] chunk_shape_spec(a, c, g)[i] <= a[i],
{
    assert forall|i: int| 0 <= i < a.len() implies #[trigger] chunk_shape_spec(a, c, g)[i] > 0 && g[i]
        * c[i] + chunk_shape_spec(a, c, g)[i] <= a[i] by {
        lemma_chunk_start_below(a, c, g, i);
    }
}

/// The index `g * c + u`, for `u` inside chunk `g`, lies in the array, in
/// chunk `g`, at position `u`.
pub proof fn lemma_chunk_local(a: Seq<u64>, c: Seq<u64>, g: Seq<u64>, u: Seq<u64>)
    requires
        grid_wf(a, c),
        in_bounds(g, grid_shape_spec(a, c)),
        in_bounds(u, chunk_shape_spec(a, c, g)),
    ensures
        ({
            let x = region_index(inner_start(c, g), chunk_shape_spec(a, c, g), ravel(u, chunk_shape_spec(a, c, g)));
            &&& x == Seq::new(a.len(), |i: int| (g[i] * c[i] + u[i]) as u64)
            &&& in_bounds(x, a)
            &&& chunk_of(x, c) == g
            &&& local_of(x, c) == u
        }),
{
    let cs = chunk_shape_spec(a, c, g);
    lemma_chunk_geometry(a, c, g);
    lemma_unravel_ravel(u, cs);
    let x = region_index(inner_start(c, g), cs, ravel(u, cs));
    assert(x =~= Seq::new(a.len(), |i: int| (g[i] * c[i] + u[i]) as u64));
    assert forall|i: int| 0 <= i < a.len() implies #[trigger] chunk_of(x, c)[i] == g[i] && local_of(x, c)[i]
        == u[i] by {
        lemma_fundamental_div_mod_converse(x[i] as int, c[i] as int, g[i] as int, u[i] as int);
    }
    assert(chunk_of(x, c) =~= g);
    assert(local_of(x, c) =~= u);
}

impl ShardingCodec {
    /// The elements read from inner chunk `j` alone equal the region of that
    /// inner chunk in the fully decoded shard, for stored and unstored inner
    /// chunks alike.
    pub proof fn lemma_partial_decode_matches_full(
        &self,
        shard: Seq<u8>,
        shard_shape: Seq<u64>,
        dt: DataType,
        fill: u64,
        validate: bool,
        j: nat,
    )
        requires
            self.wf_for(shard_shape),
            self.decodes(shard, shard_shape, dt, fill, validate),
            j < self.num_inner(shard_shape),
        ensures
            ({
                let idx = decode_index_spec(
                    shard,
                    self.num_inner(shard_shape),
                    self.index_codec,
                    validate,
                ).unwrap();
                self.inner_decode_spec(shard, idx, shard_shape, j, dt, fill, validate).unwrap()
                    == region_elems(
                    self.decode_spec(shard, shard_shape, dt, fill, validate),
                    shard_shape,
                    inner_start(self.inner_shape@, self.inner_pos(shard_shape, j)),
                    self.inner_chunk_shape(shard_shape, j),
                )
            }),
    {
        let a = shard_shape;
        let c = self.inner_shape@;
        let gshape = self.inner_grid_spec(a);
        let idx = decode_index_spec(shard, self.num_inner(a), self.index_codec, validate).unwrap();
        lemma_grid_num_elements(a, c);
        lemma_unravel_in_bounds(j, gshape);
        let g = self.inner_pos(a, j);
        let cs = self.inner_chunk_shape(a, j);
        lemma_chunk_geometry(a, c, g);
        lemma_ravel_unravel(j, gshape);
        let inner = self.inner_decode_spec(shard, idx, a, j, dt, fill, validate);
        assert(inner.is_ok());
        match inner_bytes_spec(shard, idx, j as int) {
            Ok(Some(b)) => {
                lemma_chain_decode_len(b, num_elements(cs), dt, self.inner_chain, validate);
            },
            _ => {},
        }
        let full = self.decode_spec(shard, a, dt, fill, validate);
        let reg = region_elems(full, a, inner_start(c, g), cs);
        assert forall|k: int| 0 <= k < num_elements(cs) implies #[trigger] reg[k] == inner.unwrap()[k] by {
            let u = unravel(k as nat, cs);
            lemma_unravel_in_bounds(k as nat, cs);
            lemma_ravel_unravel(k as nat, cs);
            lemma_chunk_local(a, c, g, u);
            let x = region_index(inner_start(c, g), cs, k as nat);
            lemma_ravel_bound(x, a);
            lemma_unravel_ravel(x, a);
        }
        assert(reg =~= inner.unwrap());
    }

    /// Decoding an encoded shard gives its elements back, for every inner
    /// chunk layout, index location, checksum setting and fill-chunk policy.
    pub proof fn lemma_round_trip(
        &self,
        elems: Seq<u64>,
        shard_shape: Seq<u64>,
        dt: DataType,
        fill: u64,
        validate: bool,
    )
        requires
            self.wf_for(shard_shape),
            elems.len() == num_elements(shard_shape),
            valid_elements(elems, dt),
            self.fits(elems, shard_shape, dt, fill),
        ensures
            self.decodes(self.encode_spec(elems, shard_shape, dt, fill), shard_shape, dt, fill, validate),
            self.decode_spec(
                self.encode_spec(elems, shard_shape, dt, fill),
                shard_shape,
                dt,
                fill,
                validate,
            ) == elems,
    {
        let a = shard_shape;
        let c = self.inner_shape@;
        let gshape = self.inner_grid_spec(a);
        let n = self.num_inner(a);
        let chunks = self.inner_chunks_spec(elems, a, dt, fill);
        let shard = self.encode_spec(elems, a, dt, fill);
        lemma_grid_num_elements(a, c);
        if n > 0 {
            lemma_shard_round_trip(chunks, self.index_codec, validate, 0);
        } else {
            assert(num_elements(a) > 0) by {
                crate::index::lemma_suffix_product_positive(a, 0);
            }
            lemma_unravel_in_bounds(0, a);
            crate::grid::lemma_chunk_of_in_grid(a, c, unravel(0, a));
            crate::index::lemma_ravel_bound(chunk_of(unravel(0, a), c), gshape);
        }
        let idx = decode_index_spec(shard, n, self.index_codec, validate).unwrap();
        assert forall|j: nat| j < n implies #[trigger] self.inner_decode_spec(
            shard,
            idx,
            a,
            j,
            dt,
            fill,
            validate,
        ) == Ok::<Seq<u64>, CodecError>(self.inner_elements(elems, a, j)) by {
            lemma_shard_round_trip(chunks, self.index_codec, validate, j as int);
            lemma_unravel_in_bounds(j, gshape);
            let g = self.inner_pos(a, j);
            let cs = self.inner_chunk_shape(a, j);
            lemma_chunk_geometry(a, c, g);
            let sub = self.inner_elements(elems, a, j);
            assert forall|k: int| 0 <= k < sub.len() implies #[trigger] sub[k] <= dt.max_bits() by {
                lemma_region_index_in_bounds(a, inner_start(c, g), cs, k as nat);
                lemma_ravel_bound(region_index(inner_start(c, g), cs, k as nat), a);
            }
            if self.omit_fill_chunks && all_fill(sub, fill) {
                assert(filled(fill, num_elements(cs)) =~= sub);
            } else {
                lemma_chain_round_trip(sub, dt, self.inner_chain, validate);
            }
        }
        let dec = self.decode_spec(shard, a, dt, fill, validate);
        assert forall|l: int| 0 <= l < elems.len() implies #[trigger] dec[l] == elems[l] by {
            let x = unravel(l as nat, a);
            lemma_unravel_in_bounds(l as nat, a);
            lemma_chunk_of_in_grid(a, c, x);
            let g = chunk_of(x, c);
            let u = local_of(x, c);
            let j = ravel(g, gshape);
            lemma_ravel_bound(g, gshape);
            lemma_unravel_ravel(g, gshape);
            let cs = chunk_shape_spec(a, c, g);
            lemma_chunk_local(a, c, g, u);
            assert(Seq::new(a.len(), |i: int| (g[i] * c[i] + u[i]) as u64) =~= x);
            lemma_ravel_unravel(l as nat, a);
            lemma_ravel_bound(u, cs);
        }
        assert(dec =~= elems);
    }
}

} // verus!
