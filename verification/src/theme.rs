//! The one choice of colour that is computed rather than picked: the colour a
//! declaration keyword is drawn in, stable across runs.

use vstd::prelude::*;

verus! {

/// How many colours the declaration keywords share.
pub const PALETTE_SIZE: usize = 6;

/// The 32-bit FNV-1a hash of `bytes`.
pub open spec fn fnv1a(bytes: Seq<u8>) -> u32
    decreases bytes.len(),
{
    if bytes.len() == 0 {
        2166136261u32
    } else {
        let h = fnv1a(bytes.drop_last());
        (((h ^ (bytes.last() as u32)) as nat * 16777619nat) % 0x1_0000_0000nat) as u32
    }
}

/// The palette slot of a declaration keyword: its hash, in the palette's
/// size.
pub open spec fn kind_slot(kind: Seq<char>) -> nat {
    (fnv1a(vstd::utf8::encode_utf8(kind)) as nat) % (PALETTE_SIZE as nat)
}

/// Which of the palette's colours a declaration keyword is drawn in.
pub fn kind_color_index(kind: &str) -> (r: usize)
    ensures
        r == kind_slot(kind@),
        r < PALETTE_SIZE,
{
    let bytes = kind.as_bytes();
    let mut hash: u32 = 2166136261;
    let mut k: usize = 0;
    while k < bytes.len()
        invariant
            k <= bytes@.len(),
            bytes@ == vstd::utf8::encode_utf8(kind@),
            hash == fnv1a(bytes@.take(k as int)),
        decreases bytes@.len() - k,
    {
        assert(bytes@.take(k + 1).drop_last() =~= bytes@.take(k as int));
        hash = hash ^ (bytes[k] as u32);
        hash = hash.wrapping_mul(16777619);
        k += 1;
    }
    assert(bytes@.take(bytes@.len() as int) =~= bytes@);
    (hash as usize) % PALETTE_SIZE
}

} // verus!
