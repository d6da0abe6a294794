//! Store keys of chunks: `c` followed by each chunk index in decimal, each
//! preceded by the separator (`c/1/23`, or `c.1.23`).
use vstd::prelude::*;

verus! {

/// The character between the parts of a chunk key.
#[derive(Clone, Copy, Debug, PartialEq, Eq, Structural)]
pub enum ChunkKeySeparator {
    Slash,
    Dot,
}

impl ChunkKeySeparator {
    pub open spec fn byte_spec(self) -> u8 {
        match self {
            ChunkKeySeparator::Slash => 47,
            ChunkKeySeparator::Dot => 46,
        }
    }

    /// The separator's ASCII byte.
    pub fn byte(&self) -> (r: u8)
        ensures
            r == self.byte_spec(),
    {
        match self {
            ChunkKeySeparator::Slash => 47,
            ChunkKeySeparator::Dot => 46,
        }
    }
}

/// The ASCII decimal digits of `n`, most significant first, with no leading
/// zero.
pub open spec fn decimal(n: nat) -> Seq<u8>
    decreases n,
{
    if n < 10 {
        seq![(48 + n) as u8]
    } else {
        decimal(n / 10).push((48 + n % 10) as u8)
    }
}

/// The key of the chunk at grid position `g`.
pub open spec fn chunk_key_spec(g: Seq<u64>, separator: u8) -> Seq<u8>
    decreases g.len(),
{
    if g.len() == 0 {
        seq![99u8]
    } else {
        chunk_key_spec(g.drop_last(), separator).push(separator) + decimal(g.last() as nat)
    }
}

/// Appends the decimal digits of `n`.
pub fn push_decimal(out: &mut Vec<u8>, n: u64)
    ensures
        final(out)@ == old(out)@ + decimal(n as nat),
    decreases n,
{
    let ghost start = out@;
    if n >= 10 {
        push_decimal(out, n / 10);
    }
    out.push((48 + n % 10) as u8);
    proof {
        if n < 10 {
            assert(n % 10 == n);
            assert(out@ =~= start + decimal(n as nat));
        } else {
            assert(out@ =~= start + decimal(n as nat));
        }
    }
}

/// The ASCII bytes of the store key of the chunk at grid position `g`.
pub fn chunk_key(g: &Vec<u64>, separator: ChunkKeySeparator) -> (r: Vec<u8>)
    ensures
        r@ == chunk_key_spec(g@, separator.byte_spec()),
{
    let sep = separator.byte();
    let mut out: Vec<u8> = Vec::new();
    out.push(99u8);
    let mut i: usize = 0;
    proof {
        assert(out@ =~= chunk_key_spec(g@.take(0), sep));
    }
    while i < g.len()
        invariant
            i <= g@.len(),
            sep == separator.byte_spec(),
            out@ == chunk_key_spec(g@.take(i as int), sep),
        decreases g@.len() - i,
    {
        proof {
            assert(g@.take(i as int + 1).drop_last() =~= g@.take(i as int));
        }
        out.push(sep);
        push_decimal(&mut out, g[i]);
        i = i + 1;
    }
    proof {
        assert(g@.take(i as int) =~= g@);
    }
    out
}

} // verus!
