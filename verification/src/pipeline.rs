use vstd::prelude::*;
use vstd::bytes::{spec_u64_to_le_bytes, u64_to_le_bytes};

verus! {

/// Wall-clock time spent in each stage of a run.
#[derive(Debug, Clone, Copy, Default)]
pub struct Timings {
    pub mesh: std::time::Duration,
    pub plates: std::time::Duration,
    pub tectonics: std::time::Duration,
    pub hydrology: std::time::Duration,
    pub render: std::time::Duration,
    pub total: std::time::Duration,
}

/// FNV-1a 64-bit offset basis.
pub const FNV_OFFSET: u64 = 0xcbf29ce484222325;

/// FNV-1a 64-bit prime.
pub const FNV_PRIME: u64 = 0x100000001b3;

/// One FNV-1a round: xor in the byte, then multiply by the prime modulo 2^64.
pub open spec fn fnv_step(h: u64, b: u8) -> u64 {
    vstd::wrapping::u64_specs::wrapping_mul(h ^ (b as u64), FNV_PRIME)
}

/// FNV-1a 64-bit hash of a byte sequence.
pub open spec fn fnv1a(bytes: Seq<u8>) -> u64
    decreases bytes.len(),
{
    if bytes.len() == 0 {
        FNV_OFFSET
    } else {
        fnv_step(fnv1a(bytes.drop_last()), bytes.last())
    }
}

/// Little-endian bytes of the first `k` values whose cell is not a ghost, in index order.
pub open spec fn fingerprint_bytes(bits: Seq<u64>, is_ghost: Seq<bool>, k: nat) -> Seq<u8>
    decreases k,
{
    if k == 0 {
        seq![]
    } else {
        let prev = fingerprint_bytes(bits, is_ghost, (k - 1) as nat);
        if is_ghost[k - 1] {
            prev
        } else {
            prev + spec_u64_to_le_bytes(bits[k - 1])
        }
    }
}

proof fn lemma_fnv1a_push(bytes: Seq<u8>, b: u8)
    ensures
        fnv1a(bytes.push(b)) == fnv_step(fnv1a(bytes), b),
{
    assert(bytes.push(b).drop_last() =~= bytes);
}

/// World fingerprint: FNV-1a 64 over the little-endian bytes of the elevation bit patterns of
/// the real (non-ghost) centers, in index order. The same world gives the same fingerprint.
pub fn fingerprint(elevation_bits: &Vec<u64>, is_ghost: &Vec<bool>) -> (h: u64)
    requires
        is_ghost@.len() == elevation_bits@.len(),
    ensures
        h == fnv1a(fingerprint_bytes(elevation_bits@, is_ghost@, elevation_bits@.len())),
{
    let mut h: u64 = FNV_OFFSET;
    let mut i: usize = 0;
    assert(fnv1a(seq![]) == FNV_OFFSET);
    while i < elevation_bits.len()
        invariant
            is_ghost@.len() == elevation_bits@.len(),
            i <= elevation_bits@.len(),
            h == fnv1a(fingerprint_bytes(elevation_bits@, is_ghost@, i as nat)),
        decreases elevation_bits@.len() - i,
    {
        let ghost prefix = fingerprint_bytes(elevation_bits@, is_ghost@, i as nat);
        if !is_ghost[i] {
            let bytes = u64_to_le_bytes(elevation_bits[i]);
            let mut j: usize = 0;
            while j < 8
                invariant
                    bytes@ == spec_u64_to_le_bytes(elevation_bits@[i as int]),
                    bytes@.len() == 8,
                    j <= 8,
                    h == fnv1a(prefix + bytes@.subrange(0, j as int)),
                decreases 8 - j,
            {
                proof {
                    lemma_fnv1a_push(prefix + bytes@.subrange(0, j as int), bytes@[j as int]);
                    assert((prefix + bytes@.subrange(0, j as int)).push(bytes@[j as int])
                        =~= prefix + bytes@.subrange(0, j + 1));
                }
                h = (h ^ (bytes[j] as u64)).wrapping_mul(FNV_PRIME);
                j += 1;
            }
            assert(bytes@.subrange(0, 8) =~= bytes@);
        } else {
        }
        assert(prefix + seq![] =~= prefix);
        i += 1;
    }
    h
}


/// Ghost centers do not enter the fingerprint: two worlds with the same ghost flags whose
/// real centers carry the same elevation bits have the same fingerprint.
pub proof fn lemma_fingerprint_ignores_ghosts(
    bits1: Seq<u64>,
    bits2: Seq<u64>,
    is_ghost: Seq<bool>,
    k: nat,
)
    requires
        bits1.len() == bits2.len(),
        k <= bits1.len(),
        forall|i: int| 0 <= i < bits1.len() && !is_ghost[i] ==> #[trigger] bits1[i] == bits2[i],
    ensures
        fnv1a(fingerprint_bytes(bits1, is_ghost, k)) == fnv1a(fingerprint_bytes(bits2, is_ghost, k)),
    decreases k,
{
    lemma_fingerprint_bytes_agree(bits1, bits2, is_ghost, k);
}

proof fn lemma_fingerprint_bytes_agree(bits1: Seq<u64>, bits2: Seq<u64>, is_ghost: Seq<bool>, k: nat)
    requires
        bits1.len() == bits2.len(),
        k <= bits1.len(),
        forall|i: int| 0 <= i < bits1.len() && !is_ghost[i] ==> #[trigger] bits1[i] == bits2[i],
    ensures
        fingerprint_bytes(bits1, is_ghost, k) == fingerprint_bytes(bits2, is_ghost, k),
    decreases k,
{
    if k > 0 {
        lemma_fingerprint_bytes_agree(bits1, bits2, is_ghost, (k - 1) as nat);
        if !is_ghost[k - 1] {
            assert(bits1[k - 1] == bits2[k - 1]);
        }
    }
}
} // verus!
