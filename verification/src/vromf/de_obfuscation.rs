//! The XOR obfuscation pass applied to packed VROMF payloads.
//!
//! Two fixed 128-bit keys cover the first 16 bytes and the last aligned
//! 16-byte block of the buffer; everything in between is left untouched.
//! The pass is its own inverse.

use vstd::prelude::*;

verus! {

/// The key XORed over the first 16 bytes of the buffer.
pub open spec fn key_first() -> Seq<u8> {
    seq![
        0xaau8, 0x55u8, 0xaau8, 0x55u8, 0x0fu8, 0xf0u8, 0x0fu8, 0xf0u8, 0x55u8, 0xaau8, 0x55u8,
        0xaau8, 0x12u8, 0x48u8, 0x12u8, 0x48u8,
    ]
}

/// The key XORed over the last aligned 16-byte block of the buffer.
pub open spec fn key_last() -> Seq<u8> {
    seq![
        0x12u8, 0x48u8, 0x12u8, 0x48u8, 0x55u8, 0xaau8, 0x55u8, 0xaau8, 0x0fu8, 0xf0u8, 0x0fu8,
        0xf0u8, 0xaau8, 0x55u8, 0xaau8, 0x55u8,
    ]
}

/// Start of the last aligned 16-byte block of a buffer of length `len`.
pub open spec fn last_block_start(len: int) -> int {
    len - 16 - (len % 16)
}

/// The XOR mask applied at index `j` of a buffer of length `len`: the first
/// key over `[0, 16)` when at least 16 bytes exist, the second key over the
/// last aligned block when at least 32 bytes exist, zero elsewhere.
pub open spec fn deobf_mask(len: int, j: int) -> u8 {
    if len >= 16 && 0 <= j < 16 {
        key_first()[j]
    } else if len >= 32 && last_block_start(len) <= j < last_block_start(len) + 16 {
        key_last()[j - last_block_start(len)]
    } else {
        0
    }
}

/// The whole buffer after the obfuscation pass.
pub open spec fn deobf_spec(b: Seq<u8>) -> Seq<u8> {
    Seq::new(b.len(), |j: int| b[j] ^ deobf_mask(b.len() as int, j))
}

/// The pass is an involution: applying it twice restores any buffer.
pub proof fn lemma_deobf_involution(b: Seq<u8>)
    ensures
        deobf_spec(deobf_spec(b)) == b,
{
    let once = deobf_spec(b);
    let twice = deobf_spec(once);
    assert forall|j: int| 0 <= j < b.len() implies twice[j] == b[j] by {
        let m = deobf_mask(b.len() as int, j);
        let x = b[j];
        assert((x ^ m) ^ m == x) by (bit_vector);
    }
    assert(twice =~= b);
}

fn first_key_vec() -> (r: Vec<u8>)
    ensures
        r@ == key_first(),
{
    let mut v: Vec<u8> = Vec::new();
    v.push(0xaa);
    v.push(0x55);
    v.push(0xaa);
    v.push(0x55);
    v.push(0x0f);
    v.push(0xf0);
    v.push(0x0f);
    v.push(0xf0);
    v.push(0x55);
    v.push(0xaa);
    v.push(0x55);
    v.push(0xaa);
    v.push(0x12);
    v.push(0x48);
    v.push(0x12);
    v.push(0x48);
    proof {
        assert(v@ =~= key_first());
    }
    v
}

fn last_key_vec() -> (r: Vec<u8>)
    ensures
        r@ == key_last(),
{
    let mut v: Vec<u8> = Vec::new();
    v.push(0x12);
    v.push(0x48);
    v.push(0x12);
    v.push(0x48);
    v.push(0x55);
    v.push(0xaa);
    v.push(0x55);
    v.push(0xaa);
    v.push(0x0f);
    v.push(0xf0);
    v.push(0x0f);
    v.push(0xf0);
    v.push(0xaa);
    v.push(0x55);
    v.push(0xaa);
    v.push(0x55);
    proof {
        assert(v@ =~= key_last());
    }
    v
}

proof fn lemma_xor_zero(x: u8)
    ensures
        x ^ 0 == x,
{
    assert(x ^ 0 == x) by (bit_vector);
}

/// XORs `key` (16 bytes) into `buffer` starting at `start`.
fn xor_block(buffer: &mut Vec<u8>, start: usize, key: &Vec<u8>)
    requires
        key@.len() == 16,
        start + 16 <= old(buffer)@.len(),
    ensures
        final(buffer)@.len() == old(buffer)@.len(),
        forall|j: int|
            0 <= j < old(buffer)@.len() ==> final(buffer)@[j] == if start <= j < start + 16 {
                old(buffer)@[j] ^ key@[j - start]
            } else {
                old(buffer)@[j]
            },
{
    let n = buffer.len();
    let mut k: usize = 0;
    while k < 16
        invariant
            0 <= k <= 16,
            key@.len() == 16,
            start + 16 <= old(buffer)@.len(),
            old(buffer)@.len() == n,
            buffer@.len() == old(buffer)@.len(),
            forall|j: int|
                0 <= j < old(buffer)@.len() ==> buffer@[j] == if start <= j < start + k {
                    old(buffer)@[j] ^ key@[j - start]
                } else {
                    old(buffer)@[j]
                },
        decreases 16 - k,
    {
        let b = buffer[start + k] ^ key[k];
        buffer[start + k] = b;
        k = k + 1;
    }
}

/// Applies the obfuscation pass in place. Buffers shorter than 16 bytes are
/// left as they are; buffers shorter than 32 bytes mask only the first 16.
pub fn deobfuscate(buffer: &mut Vec<u8>)
    ensures
        final(buffer)@ == deobf_spec(old(buffer)@),
{
    let ghost orig = buffer@;
    if buffer.len() < 16 {
        proof {
            assert forall|j: int| 0 <= j < orig.len() implies deobf_spec(orig)[j] == orig[j] by {
                lemma_xor_zero(orig[j]);
            }
            assert(deobf_spec(orig) =~= orig);
        }
        return ;
    }
    let k1 = first_key_vec();
    xor_block(buffer, 0, &k1);
    if buffer.len() < 32 {
        proof {
            assert forall|j: int| 0 <= j < orig.len() implies buffer@[j] == deobf_spec(orig)[j] by {
                lemma_xor_zero(orig[j]);
            }
            assert(buffer@ =~= deobf_spec(orig));
        }
        return ;
    }
    let len = buffer.len();
    let start = len - 16 - (len % 16);
    proof {
        assert(len % 16 < 16);
        assert(start + 16 <= len);
        assert(start >= 16);
    }
    let ghost mid = buffer@;
    let k2 = last_key_vec();
    xor_block(buffer, start, &k2);
    proof {
        assert forall|j: int| 0 <= j < orig.len() implies buffer@[j] == deobf_spec(orig)[j] by {
            lemma_xor_zero(orig[j]);
            assert(mid[j] == if 0 <= j < 16 {
                orig[j] ^ key_first()[j]
            } else {
                orig[j] ^ 0
            });
        }
        assert(buffer@ =~= deobf_spec(orig));
    }
}

} // verus!
