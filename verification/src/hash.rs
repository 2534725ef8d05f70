use vstd::prelude::*;

verus! {

/// Identifier of a block: 32 opaque bytes.
#[derive(Clone, Copy, Debug, PartialEq, Eq)]
pub struct BlockHeaderHash(pub [u8; 32]);

/// Hash stored with a trie node: 32 opaque bytes.
#[derive(Clone, Copy, Debug, PartialEq, Eq)]
pub struct TrieHash(pub [u8; 32]);

/// Compares two 32-byte arrays byte by byte.
pub fn bytes32_eq(a: &[u8; 32], b: &[u8; 32]) -> (r: bool)
    ensures
        r == (a@ == b@),
{
    let mut i: usize = 0;
    while i < 32
        invariant
            i <= 32,
            forall|k: int| 0 <= k < i ==> a@[k] == b@[k],
        decreases 32 - i,
    {
        if a[i] != b[i] {
            return false;
        }
        i += 1;
    }
    assert(a@ =~= b@);
    true
}

/// Copies the 32 bytes of `data` that start at `start`.
pub fn bytes32_at(data: &[u8], start: usize) -> (r: [u8; 32])
    requires
        start + 32 <= data@.len(),
    ensures
        r@ == data@.subrange(start as int, start + 32),
{
    let n: usize = data.len();
    let mut out: [u8; 32] = [0u8; 32];
    let mut i: usize = 0;
    while i < 32
        invariant
            i <= 32,
            start + 32 <= n == data@.len(),
            forall|k: int| 0 <= k < i ==> out@[k] == data@[start + k],
        decreases 32 - i,
    {
        out[i] = data[start + i];
        i += 1;
    }
    assert(out@ =~= data@.subrange(start as int, start + 32));
    out
}

/// Copies the bytes of `data` from `start` up to, not including, `end`.
pub fn copy_range(data: &[u8], start: usize, end: usize) -> (r: Vec<u8>)
    requires
        start <= end <= data@.len(),
    ensures
        r@ == data@.subrange(start as int, end as int),
{
    let mut out: Vec<u8> = Vec::new();
    let mut i: usize = start;
    while i < end
        invariant
            start <= i <= end <= data@.len(),
            out@ == data@.subrange(start as int, i as int),
        decreases end - i,
    {
        out.push(data[i]);
        proof {
            assert(out@ =~= data@.subrange(start as int, i + 1));
        }
        i += 1;
    }
    out
}

} // verus!
