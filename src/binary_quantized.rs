//! The binary-quantized Euclidean metric: two vectors are as far apart as
//! the number of bits in which their packed bytes differ.
use vstd::prelude::*;

verus! {

/// The binary-quantized Euclidean metric. Its split planes are built from the
/// real values; only the final distance looks at bits.
#[derive(Debug, Clone)]
pub struct BinaryQuantizedEuclidean;

impl BinaryQuantizedEuclidean {
    /// The metric's name.
    pub fn name() -> (r: &'static str)
        ensures
            r@ == "binary quantized euclidean"@,
    {
        proof {
            reveal_strlit("binary quantized euclidean");
        }
        "binary quantized euclidean"
    }

    /// The bytes of the leaf header: one `f32` plane bias.
    pub fn header_len() -> (r: usize)
        ensures
            r == 4,
    {
        4
    }

    /// The distance used to rank results: the bits in which the two vectors differ.
    pub fn built_distance(p: &[u8], q: &[u8]) -> (r: u32)
        requires
            8 * min_len(p@, q@) <= u32::MAX,
        ensures
            r == hamming(p@, q@),
    {
        binary_quantized_euclidean_distance(p, q)
    }
}

/// The number of bits set in a byte.
pub open spec fn ones(b: u8) -> nat {
    ((b & 1) as nat) + (((b >> 1u8) & 1) as nat) + (((b >> 2u8) & 1) as nat) + (((b >> 3u8)
        & 1) as nat) + (((b >> 4u8) & 1) as nat) + (((b >> 5u8) & 1) as nat) + (((b >> 6u8) & 1)
        as nat) + (((b >> 7u8) & 1) as nat)
}

/// The shorter of the two lengths: bytes past it are not compared.
pub open spec fn min_len(u: Seq<u8>, v: Seq<u8>) -> nat {
    if u.len() <= v.len() {
        u.len()
    } else {
        v.len()
    }
}

/// The bits set in `u[i] ^ v[i]`, over the first `n` positions.
pub open spec fn hamming_prefix(u: Seq<u8>, v: Seq<u8>, n: nat) -> nat
    decreases n,
{
    if n == 0 {
        0
    } else {
        hamming_prefix(u, v, (n - 1) as nat) + ones(u[n - 1] ^ v[n - 1])
    }
}

/// The Hamming weight of the exclusive or of two byte strings, position by
/// position, over their common length.
pub open spec fn hamming(u: Seq<u8>, v: Seq<u8>) -> nat {
    hamming_prefix(u, v, min_len(u, v))
}

/// The number of bits set in `b`.
fn count_ones(b: u8) -> (r: u32)
    ensures
        r == ones(b),
        r <= 8,
{
    assert((b & 1) <= 1 && ((b >> 1u8) & 1) <= 1 && ((b >> 2u8) & 1) <= 1 && ((b >> 3u8) & 1)
        <= 1) by (bit_vector);
    assert(((b >> 4u8) & 1) <= 1 && ((b >> 5u8) & 1) <= 1 && ((b >> 6u8) & 1) <= 1 && ((b
        >> 7u8) & 1) <= 1) by (bit_vector);
    ((b & 1) as u32) + (((b >> 1u8) & 1) as u32) + (((b >> 2u8) & 1) as u32) + (((b >> 3u8) & 1)
        as u32) + (((b >> 4u8) & 1) as u32) + (((b >> 5u8) & 1) as u32) + (((b >> 6u8) & 1)
        as u32) + (((b >> 7u8) & 1) as u32)
}

/// The bits in which the packed bytes of `u` and `v` differ.
pub fn binary_quantized_euclidean_distance(u: &[u8], v: &[u8]) -> (r: u32)
    requires
        8 * min_len(u@, v@) <= u32::MAX,
    ensures
        r == hamming(u@, v@),
{
    let n = if u.len() <= v.len() {
        u.len()
    } else {
        v.len()
    };
    let mut total: u32 = 0;
    let mut i: usize = 0;
    while i < n
        invariant
            n == min_len(u@, v@),
            i <= n,
            8 * n <= u32::MAX,
            total == hamming_prefix(u@, v@, i as nat),
            total <= 8 * i,
        decreases n - i,
    {
        let c = count_ones(u[i] ^ v[i]);
        total = total + c;
        i = i + 1;
    }
    total
}

} // verus!
