//! The memory-hard proof-of-work hash.
//!
//! Three phases over a 4 MiB scratchpad of 65 536 chunks of 64 bytes:
//! fill the scratchpad from a seed, run 64 data-dependent mixing rounds
//! over an eight-lane 64-bit state, and squeeze the state through a
//! double SHA-256. The whole computation is specified as a function of
//! the input bytes alone, so identical inputs give identical hashes.

use vstd::prelude::*;
use crate::hashes::{Hash256, blake3_of, sha256_of, dsha256_of, hash_of_bytes, blake3_hash, sha256,
    double_sha256_hash};
use crate::encoding::{le_bytes_n, le_word, push_le32, push_le64, le64_at};

verus! {

/// Number of 64-byte chunks in the 4 MiB scratchpad.
pub const N_CHUNKS: usize = 65536;

/// Number of mixing rounds.
pub const N_ITERATIONS: usize = 64;

/// 64-bit wrapping addition.
pub open spec fn wadd(x: u64, y: u64) -> u64 {
    if x + y > u64::MAX {
        (x + y - 0x1_0000_0000_0000_0000) as u64
    } else {
        (x + y) as u64
    }
}

/// 64-bit wrapping multiplication.
pub open spec fn wmul(x: u64, y: u64) -> u64 {
    ((x as nat * y as nat) % 0x1_0000_0000_0000_0000) as u64
}

/// Rotate a 64-bit lane left by `k < 64` bits.
pub open spec fn rotl64(x: u64, k: u64) -> u64 {
    if k == 0 {
        x
    } else {
        (x << k) | (x >> (64 - k) as u64)
    }
}

/// One scratchpad chunk: two successive keyed BLAKE3 digests, so filling
/// is sequential.
pub open spec fn fill_chunk(seed: Seq<u8>, i: nat) -> Seq<u8> {
    let first = blake3_of(seed + le_bytes_n(i, 4));
    first + blake3_of(first + le_bytes_n(i, 4))
}

/// The freshly filled scratchpad derived from the input's seed.
pub open spec fn init_pad(input: Seq<u8>) -> Seq<Seq<u8>> {
    Seq::new(N_CHUNKS as nat, |i: int| fill_chunk(blake3_of(input), i as nat))
}

/// The initial mixing state: the low four lanes from the BLAKE3 seed, the
/// high four from a SHA-256 of the input.
pub open spec fn init_state(input: Seq<u8>) -> Seq<u64> {
    Seq::new(
        8,
        |j: int|
            if j < 4 {
                le_word(blake3_of(input).subrange(8 * j, 8 * j + 8)) as u64
            } else {
                le_word(sha256_of(input).subrange(8 * (j - 4), 8 * (j - 4) + 8)) as u64
            },
    )
}

/// The 64-byte little-endian serialization of the eight state lanes.
pub open spec fn state_bytes(s: Seq<u64>) -> Seq<u8> {
    le_bytes_n(s[0] as nat, 8) + le_bytes_n(s[1] as nat, 8) + le_bytes_n(s[2] as nat, 8)
        + le_bytes_n(s[3] as nat, 8) + le_bytes_n(s[4] as nat, 8) + le_bytes_n(s[5] as nat, 8)
        + le_bytes_n(s[6] as nat, 8) + le_bytes_n(s[7] as nat, 8)
}

/// Sequentially fold the read chunk into lanes `j..8`: XOR with the read
/// word, then add the next lane and rotate.
pub open spec fn mix_lanes(s: Seq<u64>, rd: Seq<u64>, round: nat, j: nat) -> Seq<u64>
    decreases 8 - j,
{
    if j >= 8 {
        s
    } else {
        let xored = s.update(j as int, s[j as int] ^ rd[j as int]);
        let sum = wadd(xored[j as int], xored[((j + 1) % 8) as int]);
        let rotated = rotl64(sum, ((round + j) % 64) as u64);
        mix_lanes(xored.update(j as int, rotated), rd, round, (j + 1) as nat)
    }
}

/// Every eighth round: XOR the low half with a SHA-256 of the state.
pub open spec fn sha_fold(s: Seq<u64>) -> Seq<u64> {
    let d = sha256_of(state_bytes(s));
    Seq::new(
        8,
        |j: int|
            if j < 4 {
                s[j] ^ (le_word(d.subrange(8 * j, 8 * j + 8)) as u64)
            } else {
                s[j]
            },
    )
}

/// Every sixteenth round: XOR the high half with a BLAKE3 of the state.
pub open spec fn blake_fold(s: Seq<u64>) -> Seq<u64> {
    let d = blake3_of(state_bytes(s));
    Seq::new(
        8,
        |j: int|
            if j >= 4 {
                s[j] ^ (le_word(d.subrange(8 * (j - 4), 8 * (j - 4) + 8)) as u64)
            } else {
                s[j]
            },
    )
}

/// One mixing round: data-dependent read, lane folding, periodic hash
/// injections, data-dependent write-back.
pub open spec fn pow_round(s: Seq<u64>, pad: Seq<Seq<u8>>, round: nat) -> (Seq<u64>, Seq<Seq<u8>>) {
    let read_idx = wadd(s[0], s[(round % 8) as int]) as nat % 65536;
    let chunk = pad[read_idx as int];
    let rd = Seq::new(8, |j: int| le_word(chunk.subrange(8 * j, 8 * j + 8)) as u64);
    let s1 = mix_lanes(s, rd, round, 0);
    let s2 = if round % 8 == 7 {
        sha_fold(s1)
    } else {
        s1
    };
    let s3 = if round % 16 == 15 {
        blake_fold(s2)
    } else {
        s2
    };
    let write_idx = wmul(s3[1], s3[3]) as nat % 65536;
    (s3, pad.update(write_idx as int, state_bytes(s3)))
}

/// The state and scratchpad after `n` rounds.
pub open spec fn pow_iter(s: Seq<u64>, pad: Seq<Seq<u8>>, n: nat) -> (Seq<u64>, Seq<Seq<u8>>)
    decreases n,
{
    if n == 0 {
        (s, pad)
    } else {
        let prev = pow_iter(s, pad, (n - 1) as nat);
        pow_round(prev.0, prev.1, (n - 1) as nat)
    }
}

/// The proof-of-work hash of a byte string: fill, mix for 64 rounds,
/// squeeze through double SHA-256.
pub open spec fn pow_spec(input: Seq<u8>) -> Hash256 {
    let end = pow_iter(init_state(input), init_pad(input), N_ITERATIONS as nat);
    hash_of_bytes(dsha256_of(state_bytes(end.0)))
}

/// Rotate left for 64-bit lanes.
fn rotl64_exec(x: u64, k: u64) -> (r: u64)
    requires
        k < 64,
    ensures
        r == rotl64(x, k),
{
    if k == 0 {
        x
    } else {
        (x << k) | (x >> (64 - k))
    }
}

/// Serialize the eight lanes little-endian.
fn serialize_state(s: &Vec<u64>) -> (r: Vec<u8>)
    requires
        s@.len() == 8,
    ensures
        r@ == state_bytes(s@),
        r@.len() == 64,
{
    let mut out: Vec<u8> = Vec::new();
    push_le64(&mut out, s[0]);
    push_le64(&mut out, s[1]);
    push_le64(&mut out, s[2]);
    push_le64(&mut out, s[3]);
    push_le64(&mut out, s[4]);
    push_le64(&mut out, s[5]);
    push_le64(&mut out, s[6]);
    push_le64(&mut out, s[7]);
    proof {
        assert(out@ =~= state_bytes(s@));
        crate::encoding::lemma_le_bytes_n_len(s@[0] as nat, 8);
        crate::encoding::lemma_le_bytes_n_len(s@[1] as nat, 8);
        crate::encoding::lemma_le_bytes_n_len(s@[2] as nat, 8);
        crate::encoding::lemma_le_bytes_n_len(s@[3] as nat, 8);
        crate::encoding::lemma_le_bytes_n_len(s@[4] as nat, 8);
        crate::encoding::lemma_le_bytes_n_len(s@[5] as nat, 8);
        crate::encoding::lemma_le_bytes_n_len(s@[6] as nat, 8);
        crate::encoding::lemma_le_bytes_n_len(s@[7] as nat, 8);
    }
    out
}

/// The view of the scratchpad as a sequence of chunk byte sequences.
pub open spec fn pad_view(pad: Seq<Vec<u8>>) -> Seq<Seq<u8>> {
    pad.map_values(|v: Vec<u8>| v@)
}

/// Compute the proof-of-work hash of a serialized block header.
///
/// Deterministic: the result is a function of the input bytes alone, so
/// miners and validators agree on every platform.
pub fn equihash_x(header_bytes: &Vec<u8>) -> (h: Hash256)
    ensures
        h == pow_spec(header_bytes@),
{
    // Phase 1: fill the scratchpad from the seed.
    let seed = blake3_hash(header_bytes.as_slice());
    let mut pad: Vec<Vec<u8>> = Vec::new();
    let mut i: usize = 0;
    while i < N_CHUNKS
        invariant
            i <= N_CHUNKS,
            seed@ == blake3_of(header_bytes@),
            seed@.len() == 32,
            pad@.len() == i,
            forall|j: int| 0 <= j < i ==> #[trigger] pad@[j]@ == fill_chunk(seed@, j as nat),
            forall|j: int| 0 <= j < i ==> #[trigger] pad@[j]@.len() == 64,
        decreases N_CHUNKS - i,
    {
        let mut in1: Vec<u8> = Vec::new();
        append_vec(&mut in1, &seed);
        push_le32(&mut in1, i as u32);
        let c1 = blake3_hash(in1.as_slice());
        let mut in2: Vec<u8> = Vec::new();
        append_vec(&mut in2, &c1);
        push_le32(&mut in2, i as u32);
        let c2 = blake3_hash(in2.as_slice());
        let mut chunk: Vec<u8> = Vec::new();
        append_vec(&mut chunk, &c1);
        append_vec(&mut chunk, &c2);
        proof {
            assert(in1@ =~= seed@ + le_bytes_n(i as nat, 4));
            assert(in2@ =~= c1@ + le_bytes_n(i as nat, 4));
            assert(chunk@ =~= fill_chunk(seed@, i as nat));
        }
        pad.push(chunk);
        i = i + 1;
    }
    proof {
        assert(pad_view(pad@) =~= init_pad(header_bytes@));
    }

    // Phase 2: initialize the state and mix.
    let header_hash = sha256(header_bytes.as_slice());
    let mut state: Vec<u64> = Vec::new();
    state.push(le64_at(&seed, 0));
    state.push(le64_at(&seed, 8));
    state.push(le64_at(&seed, 16));
    state.push(le64_at(&seed, 24));
    state.push(le64_at(&header_hash, 0));
    state.push(le64_at(&header_hash, 8));
    state.push(le64_at(&header_hash, 16));
    state.push(le64_at(&header_hash, 24));
    proof {
        assert(state@ =~= init_state(header_bytes@));
    }

    let ghost s0 = init_state(header_bytes@);
    let ghost p0 = init_pad(header_bytes@);

    let mut round: usize = 0;
    while round < N_ITERATIONS
        invariant
            round <= N_ITERATIONS,
            state@.len() == 8,
            pad@.len() == N_CHUNKS,
            forall|j: int| 0 <= j < N_CHUNKS ==> #[trigger] pad@[j]@.len() == 64,
            (state@, pad_view(pad@)) == pow_iter(s0, p0, round as nat),
        decreases N_ITERATIONS - round,
    {
        let ghost s_start = state@;
        let ghost p_start = pad_view(pad@);

        // Data-dependent read.
        let read_idx: usize = (state[0].wrapping_add(state[round % 8]) % 65536) as usize;
        let mut rd: Vec<u64> = Vec::new();
        let chunk = &pad[read_idx];
        rd.push(le64_at(chunk, 0));
        rd.push(le64_at(chunk, 8));
        rd.push(le64_at(chunk, 16));
        rd.push(le64_at(chunk, 24));
        rd.push(le64_at(chunk, 32));
        rd.push(le64_at(chunk, 40));
        rd.push(le64_at(chunk, 48));
        rd.push(le64_at(chunk, 56));
        proof {
            let spec_rd = Seq::new(
                8,
                |j: int| le_word(p_start[read_idx as int].subrange(8 * j, 8 * j + 8)) as u64,
            );
            assert(rd@ =~= spec_rd);
        }

        // Fold the chunk into the lanes.
        let mut j: usize = 0;
        while j < 8
            invariant
                j <= 8,
                state@.len() == 8,
                rd@.len() == 8,
                round < 64,
                mix_lanes(s_start, rd@, round as nat, 0) == mix_lanes(
                    state@,
                    rd@,
                    round as nat,
                    j as nat,
                ),
            decreases 8 - j,
        {
            let x = state[j] ^ rd[j];
            state.set(j, x);
            let sum = x.wrapping_add(state[(j + 1) % 8]);
            let rot = rotl64_exec(sum, ((round + j) % 64) as u64);
            state.set(j, rot);
            j = j + 1;
        }
        proof {
            assert(state@ == mix_lanes(s_start, rd@, round as nat, 0));
        }

        // Periodic hash injections.
        if round % 8 == 7 {
            let ghost before = state@;
            let ser = serialize_state(&state);
            let d = sha256(ser.as_slice());
            let w0 = state[0] ^ le64_at(&d, 0);
            let w1 = state[1] ^ le64_at(&d, 8);
            let w2 = state[2] ^ le64_at(&d, 16);
            let w3 = state[3] ^ le64_at(&d, 24);
            state.set(0, w0);
            state.set(1, w1);
            state.set(2, w2);
            state.set(3, w3);
            proof {
                assert(state@ =~= sha_fold(before));
            }
        }
        if round % 16 == 15 {
            let ghost before = state@;
            let ser = serialize_state(&state);
            let d = blake3_hash(ser.as_slice());
            let w4 = state[4] ^ le64_at(&d, 0);
            let w5 = state[5] ^ le64_at(&d, 8);
            let w6 = state[6] ^ le64_at(&d, 16);
            let w7 = state[7] ^ le64_at(&d, 24);
            state.set(4, w4);
            state.set(5, w5);
            state.set(6, w6);
            state.set(7, w7);
            proof {
                assert(state@ =~= blake_fold(before));
            }
        }

        // Data-dependent write-back.
        let write_idx: usize = (state[1].wrapping_mul(state[3]) % 65536) as usize;
        let ser = serialize_state(&state);
        state_into_pad(&mut pad, write_idx, ser);
        proof {
            assert(pad_view(pad@) =~= p_start.update(
                (wmul(state@[1], state@[3]) as nat % 65536) as int,
                state_bytes(state@),
            ));
            assert((state@, pad_view(pad@)) == pow_round(s_start, p_start, round as nat));
            assert((state@, pad_view(pad@)) == pow_iter(s0, p0, (round + 1) as nat));
        }
        round = round + 1;
    }

    // Phase 3: squeeze.
    let ser = serialize_state(&state);
    double_sha256_hash(ser.as_slice())
}

/// Replace one scratchpad chunk.
fn state_into_pad(pad: &mut Vec<Vec<u8>>, idx: usize, chunk: Vec<u8>)
    requires
        idx < old(pad)@.len(),
    ensures
        final(pad)@ == old(pad)@.update(idx as int, chunk),
        pad_view(final(pad)@) =~= pad_view(old(pad)@).update(idx as int, chunk@),
{
    pad.set(idx, chunk);
}

/// Append one vector's bytes to another.
fn append_vec(out: &mut Vec<u8>, bytes: &Vec<u8>)
    ensures
        final(out)@ == old(out)@ + bytes@,
{
    let mut i: usize = 0;
    let n = bytes.len();
    while i < n
        invariant
            i <= n,
            n == bytes@.len(),
            out@ == old(out)@ + bytes@.subrange(0, i as int),
        decreases n - i,
    {
        out.push(bytes[i]);
        proof {
            assert(old(out)@ + bytes@.subrange(0, i + 1) =~= (old(out)@ + bytes@.subrange(
                0,
                i as int,
            )).push(bytes@[i as int]));
        }
        i = i + 1;
    }
    proof {
        assert(bytes@.subrange(0, n as int) =~= bytes@);
    }
}

} // verus!
