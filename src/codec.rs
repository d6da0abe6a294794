//! The per-chunk codec chain: elements to bytes with a chosen byte order, then
//! an optional CRC-32C checksum appended to the bytes.
use vstd::prelude::*;
use vstd::arithmetic::div_mod::{lemma_fundamental_div_mod, lemma_fundamental_div_mod_converse};
use vstd::bytes::{
    lemma_auto_spec_u16_to_from_le_bytes, lemma_auto_spec_u32_to_from_le_bytes,
    lemma_auto_spec_u64_to_from_le_bytes, spec_u16_from_le_bytes, spec_u16_to_le_bytes,
    spec_u32_from_le_bytes, spec_u32_to_le_bytes, spec_u64_from_le_bytes, spec_u64_to_le_bytes,
    u16_from_le_bytes, u16_to_le_bytes, u32_from_le_bytes, u32_to_le_bytes, u64_from_le_bytes,
    u64_to_le_bytes,
};

verus! {

/// The element types of an array. Each element is held as the bit pattern of
/// its value, zero-extended to a `u64`.
#[derive(Clone, Copy, Debug, PartialEq, Eq, Structural)]
pub enum DataType {
    Bool,
    Int8,
    Int16,
    Int32,
    Int64,
    UInt8,
    UInt16,
    UInt32,
    UInt64,
    Float16,
    BFloat16,
    Float32,
    Float64,
}

/// The byte order of an element in its stored form.
#[derive(Clone, Copy, Debug, PartialEq, Eq, Structural)]
pub enum Endianness {
    Little,
    Big,
}

/// Why stored bytes could not be decoded.
#[derive(Clone, Copy, Debug, PartialEq, Eq, Structural)]
pub enum CodecError {
    /// The byte count does not match what the chunk's elements need.
    UnexpectedLength,
    /// The stored CRC-32C does not match the bytes it covers.
    ChecksumMismatch,
    /// A shard's index is malformed or points outside the shard.
    InvalidShardIndex,
    /// A shard's encoded size would not fit in `u64` offsets.
    ShardTooLarge,
}

/// Options threaded into every decode.
#[derive(Clone, Copy, Debug, PartialEq, Eq, Structural)]
pub struct CodecOptions {
    /// Whether stored checksums are verified.
    pub validate_checksums: bool,
}

impl DataType {
    pub open spec fn size_spec(self) -> nat {
        match self {
            DataType::Bool | DataType::Int8 | DataType::UInt8 => 1,
            DataType::Int16 | DataType::UInt16 | DataType::Float16 | DataType::BFloat16 => 2,
            DataType::Int32 | DataType::UInt32 | DataType::Float32 => 4,
            _ => 8,
        }
    }

    /// The largest bit pattern that an element of this type can hold.
    pub open spec fn max_bits(self) -> u64 {
        if self.size_spec() == 1 {
            0xff
        } else if self.size_spec() == 2 {
            0xffff
        } else if self.size_spec() == 4 {
            0xffff_ffff
        } else {
            u64::MAX
        }
    }

    /// The size of one element in bytes.
    pub fn size(&self) -> (r: usize)
        ensures
            r == self.size_spec(),
    {
        match self {
            DataType::Bool | DataType::Int8 | DataType::UInt8 => 1,
            DataType::Int16 | DataType::UInt16 | DataType::Float16 | DataType::BFloat16 => 2,
            DataType::Int32 | DataType::UInt32 | DataType::Float32 => 4,
            _ => 8,
        }
    }
}

/// Every element of `elems` is a valid bit pattern for `dt`.
pub open spec fn valid_elements(elems: Seq<u64>, dt: DataType) -> bool {
    forall|i: int| 0 <= i < elems.len() ==> #[trigger] elems[i] <= dt.max_bits()
}

pub open spec fn reversed(s: Seq<u8>) -> Seq<u8> {
    Seq::new(s.len(), |i: int| s[s.len() - 1 - i])
}

pub open spec fn element_le_bytes(v: u64, size: nat) -> Seq<u8> {
    if size == 1 {
        seq![v as u8]
    } else if size == 2 {
        spec_u16_to_le_bytes(v as u16)
    } else if size == 4 {
        spec_u32_to_le_bytes(v as u32)
    } else {
        spec_u64_to_le_bytes(v)
    }
}

pub open spec fn element_from_le_bytes(b: Seq<u8>, size: nat) -> u64 {
    if size == 1 {
        b[0] as u64
    } else if size == 2 {
        spec_u16_from_le_bytes(b) as u64
    } else if size == 4 {
        spec_u32_from_le_bytes(b) as u64
    } else {
        spec_u64_from_le_bytes(b)
    }
}

/// The stored bytes of one element.
pub open spec fn element_bytes(v: u64, dt: DataType, endian: Endianness) -> Seq<u8> {
    let le = element_le_bytes(v, dt.size_spec());
    match endian {
        Endianness::Little => le,
        Endianness::Big => reversed(le),
    }
}

/// The element whose stored bytes are `b`.
pub open spec fn element_value(b: Seq<u8>, dt: DataType, endian: Endianness) -> u64 {
    let le = match endian {
        Endianness::Little => b,
        Endianness::Big => reversed(b),
    };
    element_from_le_bytes(le, dt.size_spec())
}

/// The stored bytes of a sequence of elements, one after another.
pub open spec fn encode_elements_spec(elems: Seq<u64>, dt: DataType, endian: Endianness) -> Seq<u8>
    decreases elems.len(),
{
    if elems.len() == 0 {
        Seq::empty()
    } else {
        encode_elements_spec(elems.drop_last(), dt, endian) + element_bytes(elems.last(), dt, endian)
    }
}

/// The elements stored in `bytes`, one per `size` bytes.
pub open spec fn decode_elements_spec(bytes: Seq<u8>, dt: DataType, endian: Endianness) -> Seq<u64> {
    let s = dt.size_spec();
    Seq::new(
        bytes.len() / s,
        |i: int| element_value(bytes.subrange(i * s, i * s + s), dt, endian),
    )
}

pub proof fn lemma_element_round_trip(v: u64, dt: DataType, endian: Endianness)
    requires
        v <= dt.max_bits(),
    ensures
        element_bytes(v, dt, endian).len() == dt.size_spec(),
        element_value(element_bytes(v, dt, endian), dt, endian) == v,
{
    lemma_auto_spec_u16_to_from_le_bytes();
    lemma_auto_spec_u32_to_from_le_bytes();
    lemma_auto_spec_u64_to_from_le_bytes();
    let le = element_le_bytes(v, dt.size_spec());
    assert(le.len() == dt.size_spec());
    assert(reversed(reversed(le)) =~= le);
}

pub proof fn lemma_encode_elements_len(elems: Seq<u64>, dt: DataType, endian: Endianness)
    requires
        valid_elements(elems, dt),
    ensures
        encode_elements_spec(elems, dt, endian).len() == elems.len() * dt.size_spec(),
    decreases elems.len(),
{
    if elems.len() > 0 {
        lemma_encode_elements_len(elems.drop_last(), dt, endian);
        lemma_element_round_trip(elems.last(), dt, endian);
        let n = elems.len() as int;
        let s = dt.size_spec() as int;
        assert((n - 1) * s + s == n * s) by (nonlinear_arith);
    }
}

#[verifier::spinoff_prover]
#[verifier::rlimit(60)]
pub proof fn lemma_encode_elements_slot(elems: Seq<u64>, dt: DataType, endian: Endianness, i: int)
    requires
        valid_elements(elems, dt),
        0 <= i < elems.len(),
    ensures
        encode_elements_spec(elems, dt, endian).subrange(
            i * dt.size_spec(),
            i * dt.size_spec() + dt.size_spec(),
        ) == element_bytes(elems[i], dt, endian),
    decreases elems.len(),
{
    let s = dt.size_spec() as int;
    let n = elems.len() as int;
    let prefix = encode_elements_spec(elems.drop_last(), dt, endian);
    lemma_encode_elements_len(elems.drop_last(), dt, endian);
    lemma_element_round_trip(elems.last(), dt, endian);
    let whole = encode_elements_spec(elems, dt, endian);
    assert(whole == prefix + element_bytes(elems.last(), dt, endian));
    if i < n - 1 {
        lemma_encode_elements_slot(elems.drop_last(), dt, endian, i);
        assert(i * s + s <= (n - 1) * s) by (nonlinear_arith)
            requires
                i < n - 1,
                s >= 1,
        ;
        assert(whole.subrange(i * s, i * s + s) =~= prefix.subrange(i * s, i * s + s));
    } else {
        assert(whole.subrange(i * s, i * s + s) =~= element_bytes(elems.last(), dt, endian));
    }
}

/// Encoding elements and decoding the bytes gives the elements back.
pub proof fn lemma_elements_round_trip(elems: Seq<u64>, dt: DataType, endian: Endianness)
    requires
        valid_elements(elems, dt),
    ensures
        decode_elements_spec(encode_elements_spec(elems, dt, endian), dt, endian) == elems,
        encode_elements_spec(elems, dt, endian).len() == elems.len() * dt.size_spec(),
{
    let s = dt.size_spec() as int;
    let n = elems.len() as int;
    lemma_encode_elements_len(elems, dt, endian);
    let bytes = encode_elements_spec(elems, dt, endian);
    assert((n * s) / s == n) by (nonlinear_arith)
        requires
            s >= 1,
    ;
    let d = decode_elements_spec(bytes, dt, endian);
    assert forall|i: int| 0 <= i < n implies #[trigger] d[i] == elems[i] by {
        lemma_encode_elements_slot(elems, dt, endian, i);
        lemma_element_round_trip(elems[i], dt, endian);
    }
    assert(d =~= elems);
}

/// Appends the stored bytes of element `v`.
fn push_element(out: &mut Vec<u8>, v: u64, dt: DataType, endian: Endianness)
    requires
        v <= dt.max_bits(),
    ensures
        final(out)@ == old(out)@ + element_bytes(v, dt, endian),
{
    let size = dt.size();
    let le: Vec<u8> = if size == 1 {
        let mut b: Vec<u8> = Vec::new();
        b.push(v as u8);
        b
    } else if size == 2 {
        u16_to_le_bytes(v as u16)
    } else if size == 4 {
        u32_to_le_bytes(v as u32)
    } else {
        u64_to_le_bytes(v)
    };
    proof {
        lemma_element_round_trip(v, dt, endian);
        assert(le@ =~= element_le_bytes(v, dt.size_spec()));
    }
    let ghost start = out@;
    let mut j: usize = 0;
    while j < le.len()
        invariant
            j <= le.len(),
            le@ == element_le_bytes(v, dt.size_spec()),
            out@ =~= start + (match endian {
                Endianness::Little => le@,
                Endianness::Big => reversed(le@),
            }).take(j as int),
        decreases le.len() - j,
    {
        let b = match endian {
            Endianness::Little => le[j],
            Endianness::Big => le[le.len() - 1 - j],
        };
        out.push(b);
        j = j + 1;
    }
    proof {
        let m = match endian {
            Endianness::Little => le@,
            Endianness::Big => reversed(le@),
        };
        assert(m.take(le@.len() as int) =~= m);
    }
}

/// Encodes elements to bytes, one element after another in the given byte order.
pub fn encode_elements(elems: &Vec<u64>, dt: DataType, endian: Endianness) -> (r: Vec<u8>)
    requires
        valid_elements(elems@, dt),
    ensures
        r@ == encode_elements_spec(elems@, dt, endian),
{
    let mut out: Vec<u8> = Vec::new();
    let mut i: usize = 0;
    while i < elems.len()
        invariant
            valid_elements(elems@, dt),
            i <= elems.len(),
            out@ == encode_elements_spec(elems@.take(i as int), dt, endian),
        decreases elems.len() - i,
    {
        proof {
            assert(elems@.take(i as int + 1).drop_last() =~= elems@.take(i as int));
        }
        push_element(&mut out, elems[i], dt, endian);
        i = i + 1;
    }
    proof {
        assert(elems@.take(elems@.len() as int) =~= elems@);
    }
    out
}

/// The element whose stored bytes start at `offset` of `bytes`.
fn read_element(bytes: &Vec<u8>, offset: usize, dt: DataType, endian: Endianness) -> (r: u64)
    requires
        offset + dt.size_spec() <= bytes@.len(),
    ensures
        r == element_value(bytes@.subrange(offset as int, offset + dt.size_spec()), dt, endian),
        r <= dt.max_bits(),
{
    let size = dt.size();
    let blen = bytes.len();
    let ghost src = bytes@.subrange(offset as int, offset + size);
    let ghost le_src = match endian {
        Endianness::Little => src,
        Endianness::Big => reversed(src),
    };
    let mut le: Vec<u8> = Vec::new();
    let mut j: usize = 0;
    while j < size
        invariant
            j <= size,
            size == dt.size_spec(),
            offset + size <= bytes@.len(),
            blen == bytes@.len(),
            src == bytes@.subrange(offset as int, offset + size),
            le_src == (match endian {
                Endianness::Little => src,
                Endianness::Big => reversed(src),
            }),
            le@ =~= le_src.take(j as int),
        decreases size - j,
    {
        let b = match endian {
            Endianness::Little => bytes[offset + j],
            Endianness::Big => bytes[offset + size - 1 - j],
        };
        le.push(b);
        j = j + 1;
    }
    proof {
        assert(le_src.take(size as int) =~= le_src);
    }
    if size == 1 {
        le[0] as u64
    } else if size == 2 {
        u16_from_le_bytes(le.as_slice()) as u64
    } else if size == 4 {
        u32_from_le_bytes(le.as_slice()) as u64
    } else {
        u64_from_le_bytes(le.as_slice())
    }
}

/// Decodes `n` elements from bytes; fails where the byte count is not `n`
/// times the element size.
pub fn decode_elements(bytes: &Vec<u8>, n: u64, dt: DataType, endian: Endianness) -> (r: Result<
    Vec<u64>,
    CodecError,
>)
    ensures
        r.is_ok() <==> bytes@.len() == n * dt.size_spec(),
        r.is_ok() ==> r.unwrap()@ == decode_elements_spec(bytes@, dt, endian) && r.unwrap()@.len()
            == n && valid_elements(r.unwrap()@, dt),
        r.is_err() ==> r == Err::<Vec<u64>, _>(CodecError::UnexpectedLength),
{
    let size = dt.size();
    let blen = bytes.len();
    let cap = blen / size;
    if n > cap as u64 {
        proof {
            if bytes@.len() == n * dt.size_spec() {
                assert((n * size) / (size as int) == n) by (nonlinear_arith)
                    requires
                        size >= 1,
                ;
            }
        }
        return Err(CodecError::UnexpectedLength);
    }
    let n = n as usize;
    proof {
        assert(n * size <= blen) by (nonlinear_arith)
            requires
                n <= blen / size,
                size >= 1,
        ;
    }
    if bytes.len() != n * size {
        proof {
            if bytes@.len() == n * dt.size_spec() {
                assert((n * size) / (size as int) == n) by (nonlinear_arith)
                    requires
                        size >= 1,
                ;
            }
        }
        return Err(CodecError::UnexpectedLength);
    }
    proof {
        assert((n * size) / (size as int) == n) by (nonlinear_arith)
            requires
                size >= 1,
        ;
    }
    let mut out: Vec<u64> = Vec::new();
    let mut i: usize = 0;
    while i < n
        invariant
            i <= n,
            size == dt.size_spec(),
            blen == bytes@.len(),
            bytes@.len() == n * size,
            bytes@.len() / (size as nat) == n,
            out@ =~= decode_elements_spec(bytes@, dt, endian).take(i as int),
            valid_elements(out@, dt),
        decreases n - i,
    {
        proof {
            assert(i * size + size <= n * size) by (nonlinear_arith)
                requires
                    i < n,
            ;
        }
        let v = read_element(bytes, i * size, dt, endian);
        out.push(v);
        i = i + 1;
    }
    proof {
        assert(decode_elements_spec(bytes@, dt, endian).take(n as int) =~= decode_elements_spec(
            bytes@,
            dt,
            endian,
        ));
    }
    Ok(out)
}

/// The CRC-32C (Castagnoli) checksum of a byte sequence.
pub uninterp spec fn crc32c_of(bytes: Seq<u8>) -> u32;

/// Relies on `crc32c::crc32c`, which returns the CRC-32C checksum of the bytes
/// it is given and depends on nothing else.
#[verifier::external_body]
fn crc32c_checksum(bytes: &Vec<u8>) -> (r: u32)
    ensures
        r == crc32c_of(bytes@),
{
    crc32c::crc32c(bytes)
}

/// A copy of `bytes[from..to]`.
pub fn copy_range(bytes: &Vec<u8>, from: usize, to: usize) -> (r: Vec<u8>)
    requires
        from <= to <= bytes@.len(),
    ensures
        r@ == bytes@.subrange(from as int, to as int),
{
    let mut out: Vec<u8> = Vec::new();
    let mut i: usize = from;
    while i < to
        invariant
            from <= i <= to,
            to <= bytes@.len(),
            out@ =~= bytes@.subrange(from as int, i as int),
        decreases to - i,
    {
        out.push(bytes[i]);
        i = i + 1;
    }
    out
}

/// Appends all of `src` to `out`.
pub fn append_bytes(out: &mut Vec<u8>, src: &Vec<u8>)
    ensures
        final(out)@ == old(out)@ + src@,
{
    let ghost start = out@;
    let mut i: usize = 0;
    while i < src.len()
        invariant
            i <= src@.len(),
            out@ =~= start + src@.take(i as int),
        decreases src.len() - i,
    {
        out.push(src[i]);
        i = i + 1;
    }
    proof {
        assert(src@.take(src@.len() as int) =~= src@);
    }
}

/// The bytes followed by their CRC-32C in little-endian order.
pub open spec fn checksum_encode_spec(bytes: Seq<u8>) -> Seq<u8> {
    bytes + spec_u32_to_le_bytes(crc32c_of(bytes))
}

/// The bytes covered by a trailing CRC-32C. With validation the stored checksum
/// must match them; without it the checksum is ignored.
pub open spec fn checksum_decode_spec(bytes: Seq<u8>, validate: bool) -> Result<Seq<u8>, CodecError> {
    if bytes.len() < 4 {
        Err(CodecError::UnexpectedLength)
    } else {
        let payload = bytes.subrange(0, bytes.len() - 4);
        let stored = bytes.subrange(bytes.len() - 4, bytes.len() as int);
        if validate && spec_u32_from_le_bytes(stored) != crc32c_of(payload) {
            Err(CodecError::ChecksumMismatch)
        } else {
            Ok(payload)
        }
    }
}

/// Appends the CRC-32C of the bytes.
pub fn crc32c_encode(bytes: &Vec<u8>) -> (r: Vec<u8>)
    ensures
        r@ == checksum_encode_spec(bytes@),
{
    let crc = crc32c_checksum(bytes);
    let tail = u32_to_le_bytes(crc);
    let mut out: Vec<u8> = Vec::new();
    append_bytes(&mut out, bytes);
    append_bytes(&mut out, &tail);
    proof {
        assert(out@ =~= checksum_encode_spec(bytes@));
    }
    out
}

/// Strips a trailing CRC-32C, verifying it when `options` ask for it.
pub fn crc32c_decode(bytes: &Vec<u8>, options: &CodecOptions) -> (r: Result<Vec<u8>, CodecError>)
    ensures
        match r {
            Ok(p) => checksum_decode_spec(bytes@, options.validate_checksums) == Ok::<
                Seq<u8>,
                CodecError,
            >(p@),
            Err(e) => checksum_decode_spec(bytes@, options.validate_checksums) == Err::<
                Seq<u8>,
                CodecError,
            >(e),
        },
{
    let n = bytes.len();
    if n < 4 {
        return Err(CodecError::UnexpectedLength);
    }
    let payload = copy_range(bytes, 0, n - 4);
    if options.validate_checksums {
        let stored_bytes = copy_range(bytes, n - 4, n);
        let stored = u32_from_le_bytes(stored_bytes.as_slice());
        let crc = crc32c_checksum(&payload);
        if stored != crc {
            return Err(CodecError::ChecksumMismatch);
        }
    }
    Ok(payload)
}

/// Stripping the checksum of freshly checksummed bytes gives the bytes back.
pub proof fn lemma_checksum_round_trip(bytes: Seq<u8>, validate: bool)
    ensures
        checksum_decode_spec(checksum_encode_spec(bytes), validate) == Ok::<Seq<u8>, CodecError>(
            bytes,
        ),
{
    lemma_auto_spec_u32_to_from_le_bytes();
    let enc = checksum_encode_spec(bytes);
    let crc = crc32c_of(bytes);
    assert(spec_u32_to_le_bytes(crc).len() == 4);
    assert(enc.subrange(0, enc.len() - 4) =~= bytes);
    assert(enc.subrange(enc.len() - 4, enc.len() as int) =~= spec_u32_to_le_bytes(crc));
}

/// An array-to-bytes codec chain: elements in a byte order, optionally followed
/// by a CRC-32C of those bytes.
#[derive(Clone, Copy, Debug, PartialEq, Eq, Structural)]
pub struct CodecChain {
    pub endian: Endianness,
    pub checksum: bool,
}

/// The stored form of a chunk's elements under `chain`.
pub open spec fn chain_encode_spec(elems: Seq<u64>, dt: DataType, chain: CodecChain) -> Seq<u8> {
    let b = encode_elements_spec(elems, dt, chain.endian);
    if chain.checksum {
        checksum_encode_spec(b)
    } else {
        b
    }
}

/// The `n` elements stored in `bytes` under `chain`.
pub open spec fn chain_decode_spec(
    bytes: Seq<u8>,
    n: nat,
    dt: DataType,
    chain: CodecChain,
    validate: bool,
) -> Result<Seq<u64>, CodecError> {
    let payload = if chain.checksum {
        checksum_decode_spec(bytes, validate)
    } else {
        Ok(bytes)
    };
    match payload {
        Err(e) => Err(e),
        Ok(p) => if p.len() == n * dt.size_spec() {
            Ok(decode_elements_spec(p, dt, chain.endian))
        } else {
            Err(CodecError::UnexpectedLength)
        },
    }
}

impl CodecChain {
    /// Encodes a chunk's elements.
    pub fn encode(&self, elems: &Vec<u64>, dt: DataType) -> (r: Vec<u8>)
        requires
            valid_elements(elems@, dt),
        ensures
            r@ == chain_encode_spec(elems@, dt, *self),
    {
        let b = encode_elements(elems, dt, self.endian);
        if self.checksum {
            crc32c_encode(&b)
        } else {
            b
        }
    }

    /// Decodes the `n` elements of a chunk from its stored bytes.
    pub fn decode(&self, bytes: &Vec<u8>, n: u64, dt: DataType, options: &CodecOptions) -> (r:
        Result<Vec<u64>, CodecError>)
        ensures
            match r {
                Ok(v) => chain_decode_spec(bytes@, n as nat, dt, *self, options.validate_checksums)
                    == Ok::<Seq<u64>, CodecError>(v@) && valid_elements(v@, dt),
                Err(e) => chain_decode_spec(bytes@, n as nat, dt, *self, options.validate_checksums)
                    == Err::<Seq<u64>, CodecError>(e),
            },
    {
        if self.checksum {
            let payload = match crc32c_decode(bytes, options) {
                Ok(p) => p,
                Err(e) => {
                    return Err(e);
                },
            };
            decode_elements(&payload, n, dt, self.endian)
        } else {
            decode_elements(bytes, n, dt, self.endian)
        }
    }
}

/// Decoding what was encoded gives the elements back, for every data type,
/// byte order and checksum setting, with or without checksum validation.
pub proof fn lemma_chain_round_trip(
    elems: Seq<u64>,
    dt: DataType,
    chain: CodecChain,
    validate: bool,
)
    requires
        valid_elements(elems, dt),
    ensures
        chain_decode_spec(chain_encode_spec(elems, dt, chain), elems.len(), dt, chain, validate)
            == Ok::<Seq<u64>, CodecError>(elems),
{
    lemma_elements_round_trip(elems, dt, chain.endian);
    if chain.checksum {
        lemma_checksum_round_trip(encode_elements_spec(elems, dt, chain.endian), validate);
    }
}

/// With validation, changing any of the four checksum bytes of checksummed
/// bytes makes decoding fail with a checksum mismatch; without validation the
/// same bytes still decode to the encoded elements.
pub proof fn lemma_corrupt_checksum(
    elems: Seq<u64>,
    dt: DataType,
    chain: CodecChain,
    pos: int,
    value: u8,
)
    requires
        valid_elements(elems, dt),
        chain.checksum,
        ({
            let enc = chain_encode_spec(elems, dt, chain);
            enc.len() - 4 <= pos < enc.len() && enc[pos] != value
        }),
    ensures
        ({
            let bad = chain_encode_spec(elems, dt, chain).update(pos, value);
            &&& chain_decode_spec(bad, elems.len(), dt, chain, true) == Err::<Seq<u64>, CodecError>(
                CodecError::ChecksumMismatch,
            )
            &&& chain_decode_spec(bad, elems.len(), dt, chain, false) == Ok::<Seq<u64>, CodecError>(
                elems,
            )
        }),
{
    lemma_auto_spec_u32_to_from_le_bytes();
    lemma_elements_round_trip(elems, dt, chain.endian);
    let b = encode_elements_spec(elems, dt, chain.endian);
    let crc = crc32c_of(b);
    let enc = chain_encode_spec(elems, dt, chain);
    let bad = enc.update(pos, value);
    let n = bad.len();
    assert(spec_u32_to_le_bytes(crc).len() == 4);
    assert(bad.subrange(0, n - 4) =~= b);
    let stored = bad.subrange(n - 4, n as int);
    assert(stored.len() == 4);
    if spec_u32_from_le_bytes(stored) == crc {
        assert(spec_u32_to_le_bytes(spec_u32_from_le_bytes(stored)) == stored);
        assert(stored[pos - (n - 4)] == value);
        assert(enc.subrange(n - 4, n as int) =~= spec_u32_to_le_bytes(crc));
        assert(false);
    }
}

/// A successful decode holds the requested number of elements, all valid.
pub proof fn lemma_chain_decode_len(
    bytes: Seq<u8>,
    n: nat,
    dt: DataType,
    chain: CodecChain,
    validate: bool,
)
    requires
        chain_decode_spec(bytes, n, dt, chain, validate).is_ok(),
    ensures
        chain_decode_spec(bytes, n, dt, chain, validate).unwrap().len() == n,
        valid_elements(chain_decode_spec(bytes, n, dt, chain, validate).unwrap(), dt),
{
    let s = dt.size_spec() as int;
    assert((n * s) / s == n) by (nonlinear_arith)
        requires
            s >= 1,
    ;
    let d = chain_decode_spec(bytes, n, dt, chain, validate).unwrap();
    assert forall|i: int| 0 <= i < d.len() implies #[trigger] d[i] <= dt.max_bits() by {}
}

/// `b` with the bytes of each whole `s`-byte element reversed; bytes after the
/// last whole element stay as they are.
pub open spec fn swapped_spec(b: Seq<u8>, s: nat) -> Seq<u8> {
    let w = s as int;
    Seq::new(
        b.len(),
        |i: int|
            if i < (b.len() as int / w) * w {
                b[(i / w) * w + (w - 1 - i % w)]
            } else {
                b[i]
            },
    )
}

/// Reverses the byte order of every whole element of `v` in place, keyed on
/// the element size of `data_type` (a no-op for one-byte types).
pub fn reverse_endianness(v: &mut Vec<u8>, data_type: DataType)
    ensures
        final(v)@ == swapped_spec(old(v)@, data_type.size_spec()),
{
    let s = data_type.size();
    let len = v.len();
    let n = len / s;
    let ghost orig = v@;
    proof {
        assert(n * s <= len) by (nonlinear_arith)
            requires
                n == len / s,
                s >= 1,
        ;
    }
    let mut out: Vec<u8> = Vec::new();
    let mut e: usize = 0;
    while e < n
        invariant
            v@ == orig,
            len == orig.len(),
            s == data_type.size_spec(),
            n == len / s,
            n * s <= len,
            e <= n,
            out@.len() == e * s,
            forall|i: int| 0 <= i < e * s ==> #[trigger] out@[i] == swapped_spec(orig, s as nat)[i],
        decreases n - e,
    {
        proof {
            assert(e * s + s <= n * s) by (nonlinear_arith)
                requires
                    e < n,
            ;
        }
        let mut t: usize = 0;
        while t < s
            invariant
                v@ == orig,
                len == orig.len(),
                s == data_type.size_spec(),
                n == len / s,
                n * s <= len,
                e < n,
                e * s + s <= n * s,
                t <= s,
                out@.len() == e * s + t,
                forall|i: int|
                    0 <= i < e * s + t ==> #[trigger] out@[i] == swapped_spec(orig, s as nat)[i],
            decreases s - t,
        {
            let ghost i = (e * s + t) as int;
            proof {
                lemma_fundamental_div_mod_converse(i, s as int, e as int, t as int);
                assert(i < (len as int / s as int) * s) by (nonlinear_arith)
                    requires
                        i == e * s + t,
                        t < s,
                        e * s + s <= n * s,
                        n == len as int / s as int,
                ;
            }
            out.push(v[e * s + (s - 1 - t)]);
            t = t + 1;
        }
        e = e + 1;
    }
    let mut i: usize = n * s;
    while i < len
        invariant
            v@ == orig,
            len == orig.len(),
            s == data_type.size_spec(),
            n == len / s,
            n * s <= i <= len,
            out@.len() == i,
            forall|k: int| 0 <= k < i ==> #[trigger] out@[k] == swapped_spec(orig, s as nat)[k],
        decreases len - i,
    {
        out.push(v[i]);
        i = i + 1;
    }
    proof {
        assert(out@ =~= swapped_spec(orig, s as nat));
    }
    *v = out;
}

/// Reversing the bytes of every element of a little-endian encoding gives the
/// big-endian encoding of the same elements.
pub proof fn lemma_swap_little_to_big(elems: Seq<u64>, dt: DataType)
    requires
        valid_elements(elems, dt),
    ensures
        swapped_spec(encode_elements_spec(elems, dt, Endianness::Little), dt.size_spec())
            == encode_elements_spec(elems, dt, Endianness::Big),
{
    let s = dt.size_spec() as int;
    let n = elems.len() as int;
    let le = encode_elements_spec(elems, dt, Endianness::Little);
    let be = encode_elements_spec(elems, dt, Endianness::Big);
    lemma_encode_elements_len(elems, dt, Endianness::Little);
    lemma_encode_elements_len(elems, dt, Endianness::Big);
    assert((n * s) / s == n) by (nonlinear_arith)
        requires
            s >= 1,
    ;
    let sw = swapped_spec(le, s as nat);
    assert forall|i: int| 0 <= i < sw.len() implies #[trigger] sw[i] == be[i] by {
        let e = i / s;
        let b = i % s;
        lemma_fundamental_div_mod(i, s);
        assert(0 <= e < n) by (nonlinear_arith)
            requires
                0 <= i < n * s,
                s >= 1,
                e == i / s,
        ;
        assert(e * s == s * e) by (nonlinear_arith);
        lemma_encode_elements_slot(elems, dt, Endianness::Little, e);
        lemma_encode_elements_slot(elems, dt, Endianness::Big, e);
        lemma_element_round_trip(elems[e], dt, Endianness::Little);
        assert(le.subrange(e * s, e * s + s)[s - 1 - b] == le[e * s + (s - 1 - b)]);
        assert(be.subrange(e * s, e * s + s)[b] == be[e * s + b]);
    }
    assert(sw =~= be);
}

impl DataType {
    /// Signed integer types.
    pub open spec fn is_signed(self) -> bool {
        self is Int8 || self is Int16 || self is Int32 || self is Int64
    }

    /// Integer (and boolean) types, whose fill values convert exactly.
    pub open spec fn is_integer(self) -> bool {
        !(self is Float16 || self is BFloat16 || self is Float32 || self is Float64)
    }

    /// `2^(8 * size)`: the number of bit patterns of an element.
    pub open spec fn modulus(self) -> int {
        if self.size_spec() == 1 {
            0x100
        } else if self.size_spec() == 2 {
            0x1_0000
        } else if self.size_spec() == 4 {
            0x1_0000_0000
        } else {
            0x1_0000_0000_0000_0000
        }
    }
}

/// The integer that bit pattern `bits` of an integer type stands for.
pub open spec fn integer_value(bits: u64, dt: DataType) -> int {
    if dt.is_signed() && bits >= dt.modulus() / 2 {
        bits - dt.modulus()
    } else {
        bits as int
    }
}

/// A fill value of `data_type_in` converted to `data_type_out` as an integer
/// cast does: its value, wrapped to the output's width. `None` where either
/// type is a floating-point one.
pub fn convert_fill_value(data_type_in: DataType, fill_value: u64, data_type_out: DataType) -> (r:
    Option<u64>)
    requires
        fill_value <= data_type_in.max_bits(),
    ensures
        r.is_some() <==> data_type_in.is_integer() && data_type_out.is_integer(),
        r.is_some() ==> r.unwrap() == integer_value(fill_value, data_type_in)
            % data_type_out.modulus(),
{
    let float_in = match data_type_in {
        DataType::Float16 | DataType::BFloat16 | DataType::Float32 | DataType::Float64 => true,
        _ => false,
    };
    let float_out = match data_type_out {
        DataType::Float16 | DataType::BFloat16 | DataType::Float32 | DataType::Float64 => true,
        _ => false,
    };
    if float_in || float_out {
        return None;
    }
    let signed = match data_type_in {
        DataType::Int8 | DataType::Int16 | DataType::Int32 | DataType::Int64 => true,
        _ => false,
    };
    let m_in: u128 = modulus_of(data_type_in);
    let m_out: u128 = modulus_of(data_type_out);
    // shift by 2^64, a multiple of every modulus, so that the value is not negative
    let shifted: u128 = if signed && (fill_value as u128) >= m_in / 2 {
        0x1_0000_0000_0000_0000u128 + fill_value as u128 - m_in
    } else {
        0x1_0000_0000_0000_0000u128 + fill_value as u128
    };
    let out = shifted % m_out;
    proof {
        let v = integer_value(fill_value, data_type_in);
        let m = data_type_out.modulus();
        assert(shifted == 0x1_0000_0000_0000_0000int + v);
        let k = 0x1_0000_0000_0000_0000int / m;
        assert(k * m == 0x1_0000_0000_0000_0000int);
        vstd::arithmetic::div_mod::lemma_mod_multiples_vanish(k, v, m);
        assert(m * k == k * m) by (nonlinear_arith);
        assert(out < m);
    }
    Some(out as u64)
}

/// `2^(8 * size)` of a data type.
fn modulus_of(dt: DataType) -> (r: u128)
    ensures
        r == dt.modulus(),
{
    let size = dt.size();
    if size == 1 {
        0x100
    } else if size == 2 {
        0x1_0000
    } else if size == 4 {
        0x1_0000_0000
    } else {
        0x1_0000_0000_0000_0000
    }
}

} // verus!
