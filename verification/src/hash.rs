//! The key hash and partition assignment.
//!
//! A 64-bit FNV-1a hash is taken over the parts of a key tuple, with a
//! separator byte absorbed between parts so that differently split
//! tuples hash differently.  The partition of a key is the hash modulo
//! the partition count.  The hash is deterministic: a pure function of
//! the key parts.

use vstd::prelude::*;
use vstd::wrapping::u64_specs;
use crate::order::lemma_dv_bytes;

verus! {

/// The FNV-1a offset basis.
pub const FNV_OFFSET_BASIS: u64 = 0xcbf29ce484222325;

/// The FNV-1a prime.
pub const FNV_PRIME: u64 = 0x100000001b3;

/// The byte absorbed between key parts.
pub const KEY_DELIMITER: u8 = 0x1f;

/// One FNV-1a step: xor the byte in, multiply by the prime (wrapping).
pub open spec fn fnv_step(h: u64, b: u8) -> u64 {
    u64_specs::wrapping_mul(h ^ (b as u64), FNV_PRIME)
}

/// FNV-1a over a byte sequence, starting from state `h`.
pub open spec fn fnv_bytes(h: u64, s: Seq<u8>) -> u64
    decreases s.len(),
{
    if s.len() == 0 {
        h
    } else {
        fnv_bytes(fnv_step(h, s[0]), s.skip(1))
    }
}

proof fn lemma_fnv_bytes_push(h: u64, s: Seq<u8>, b: u8)
    ensures
        fnv_bytes(h, s.push(b)) == fnv_step(fnv_bytes(h, s), b),
    decreases s.len(),
{
    if s.len() == 0 {
        assert(s.push(b).len() == 1);
        assert(s.push(b)[0] == b);
        assert(s.push(b).skip(1) =~= Seq::<u8>::empty());
        assert(fnv_bytes(fnv_step(h, b), Seq::<u8>::empty()) == fnv_step(h, b));
        assert(fnv_bytes(h, s.push(b)) == fnv_step(h, b));
        assert(fnv_bytes(h, s) == h);
    } else {
        assert(s.push(b)[0] == s[0]);
        assert(s.push(b).skip(1) =~= s.skip(1).push(b));
        lemma_fnv_bytes_push(fnv_step(h, s[0]), s.skip(1), b);
    }
}

/// The hash state after absorbing the given key parts, separated by
/// the delimiter byte, starting from state `h`.
pub open spec fn fnv_parts(h: u64, parts: Seq<Seq<u8>>) -> u64
    decreases parts.len(),
{
    if parts.len() == 0 {
        h
    } else if parts.len() == 1 {
        fnv_bytes(h, parts[0])
    } else {
        fnv_parts(fnv_step(fnv_bytes(h, parts[0]), KEY_DELIMITER), parts.skip(1))
    }
}

/// The stable hash of a key tuple.
pub open spec fn key_hash(parts: Seq<Seq<u8>>) -> u64 {
    fnv_parts(FNV_OFFSET_BASIS, parts)
}

/// The deterministic FNV-1a hash of a key tuple: each part's bytes in
/// order, with a separator byte between parts.
pub fn stable_key_hash(key_parts: &Vec<Vec<u8>>) -> (h: u64)
    ensures
        h == key_hash(key_parts.deep_view()),
{
    let ghost parts = key_parts.deep_view();
    let mut h: u64 = FNV_OFFSET_BASIS;
    let mut i: usize = 0;
    proof {
        assert(parts.skip(0) =~= parts);
    }
    while i < key_parts.len()
        invariant
            i <= key_parts@.len(),
            parts == key_parts.deep_view(),
            parts.len() == key_parts@.len(),
            fnv_parts(h, parts.skip(i as int)) == key_hash(parts),
        decreases key_parts@.len() - i,
    {
        proof {
            lemma_dv_bytes(key_parts, i as int);
        }
        let part = &key_parts[i];
        let mut j: usize = 0;
        let h_in = h;
        while j < part.len()
            invariant
                j <= part@.len(),
                h == fnv_bytes(h_in, part@.take(j as int)),
            decreases part@.len() - j,
        {
            let b = part[j];
            h = (h ^ (b as u64)).wrapping_mul(FNV_PRIME);
            proof {
                assert(part@.take(j as int + 1).drop_last() =~= part@.take(j as int));
                lemma_fnv_bytes_push(h_in, part@.take(j as int), part@[j as int]);
                assert(part@.take(j as int + 1) =~= part@.take(j as int).push(part@[j as int]));
            }
            j = j + 1;
        }
        proof {
            assert(part@.take(part@.len() as int) =~= part@);
            assert(h == fnv_bytes(h_in, parts[i as int]));
            assert(parts.skip(i as int)[0] == parts[i as int]);
        }
        if i + 1 < key_parts.len() {
            h = (h ^ (KEY_DELIMITER as u64)).wrapping_mul(FNV_PRIME);
            proof {
                assert(parts.skip(i as int).skip(1) =~= parts.skip(i as int + 1));
                assert(parts.skip(i as int).len() >= 2);
            }
        } else {
            proof {
                if parts.skip(i as int).len() == 1 {
                    assert(fnv_parts(h, parts.skip(i as int + 1)) == h);
                }
                assert(parts.skip(i as int).skip(1) =~= parts.skip(i as int + 1));
            }
        }
        i = i + 1;
    }
    proof {
        assert(parts.skip(parts.len() as int) =~= Seq::<Seq<u8>>::empty());
    }
    h
}

/// The partition a key tuple belongs to: its hash modulo the
/// partition count, with zero partitions read as one.
pub fn partition_for_key(key_parts: &Vec<Vec<u8>>, partitions: usize) -> (p: usize)
    ensures
        p as nat == key_hash(key_parts.deep_view()) as nat % (if partitions == 0 {
            1nat
        } else {
            partitions as nat
        }),
        partitions > 0 ==> p < partitions,
{
    let total: usize = if partitions == 0 {
        1
    } else {
        partitions
    };
    let h = stable_key_hash(key_parts);
    (h % (total as u64)) as usize
}

} // verus!
