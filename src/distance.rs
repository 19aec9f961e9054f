//! The XOR distance between a content key and a node id, truncated to the
//! most significant eight bytes.
use vstd::prelude::*;

verus! {

/// Byte-wise XOR of two byte strings, as long as the shorter one.
pub open spec fn xor_bytes(a: Seq<u8>, b: Seq<u8>) -> Seq<u8> {
    Seq::new(if a.len() <= b.len() { a.len() } else { b.len() }, |i: int| a[i] ^ b[i])
}

/// The first eight bytes read as a big-endian integer; zero when there are
/// fewer than eight.
pub open spec fn be_prefix_u64(v: Seq<u8>) -> u64 {
    if v.len() < 8 {
        0
    } else {
        (v[0] as int * 0x100_0000_0000_0000 + v[1] as int * 0x1_0000_0000_0000
            + v[2] as int * 0x100_0000_0000 + v[3] as int * 0x1_0000_0000
            + v[4] as int * 0x100_0000 + v[5] as int * 0x1_0000 + v[6] as int * 0x100
            + v[7] as int) as u64
    }
}

/// Distance from a key to a node id: the XOR of their bytes, truncated to a u64.
pub open spec fn distance(key: Seq<u8>, node_id: Seq<u8>) -> u64 {
    be_prefix_u64(xor_bytes(key, node_id))
}

/// XORs two byte strings position by position, up to the shorter length.
pub fn xor_two_values(first: &[u8], second: &[u8]) -> (r: Vec<u8>)
    ensures
        r@ == xor_bytes(first@, second@),
{
    let n: usize = if first.len() <= second.len() { first.len() } else { second.len() };
    let mut out: Vec<u8> = Vec::with_capacity(n);
    let mut i: usize = 0;
    while i < n
        invariant
            n == (if first@.len() <= second@.len() { first@.len() } else { second@.len() }),
            i <= n,
            out@.len() == i,
            forall|j: int| 0 <= j < i ==> out@[j] == first@[j] ^ second@[j],
        decreases n - i,
    {
        out.push(first[i] ^ second[i]);
        i = i + 1;
    }
    assert(out@ =~= xor_bytes(first@, second@));
    out
}

/// Reads the most significant eight bytes of `vec` as a big-endian u64. Only
/// relative order matters to the callers, so the rest of a 256-bit value is
/// dropped. A vector shorter than eight bytes reads as zero.
pub fn byte_vector_to_u64(vec: &[u8]) -> (r: u64)
    ensures
        r == be_prefix_u64(vec@),
{
    if vec.len() < 8 {
        return 0;
    }
    let r: u64 = vec[0] as u64 * 0x100_0000_0000_0000 + vec[1] as u64 * 0x1_0000_0000_0000
        + vec[2] as u64 * 0x100_0000_0000 + vec[3] as u64 * 0x1_0000_0000
        + vec[4] as u64 * 0x100_0000 + vec[5] as u64 * 0x1_0000 + vec[6] as u64 * 0x100
        + vec[7] as u64;
    r
}

/// Distance from `key` to `node_id`.
pub fn distance_between(key: &[u8], node_id: &[u8]) -> (r: u64)
    ensures
        r == distance(key@, node_id@),
{
    let x = xor_two_values(key, node_id);
    byte_vector_to_u64(x.as_slice())
}

/// Every byte string is at distance zero from itself.
pub proof fn lemma_distance_to_self(x: Seq<u8>)
    ensures
        distance(x, x) == 0,
{
    let v = xor_bytes(x, x);
    assert forall|i: int| 0 <= i < v.len() implies v[i] == 0u8 by {
        let b: u8 = x[i];
        assert(b ^ b == 0u8) by (bit_vector);
    }
}

} // verus!
