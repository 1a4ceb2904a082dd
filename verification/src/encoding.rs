//! Little-endian integer encodings used by the canonical wire format.

use vstd::prelude::*;

verus! {

/// The `n` little-endian bytes of a value (least significant byte first).
pub open spec fn le_bytes_n(x: nat, n: nat) -> Seq<u8>
    decreases n,
{
    if n == 0 {
        Seq::empty()
    } else {
        seq![(x % 256) as u8] + le_bytes_n(x / 256, (n - 1) as nat)
    }
}

pub proof fn lemma_le_bytes_n_len(x: nat, n: nat)
    ensures
        le_bytes_n(x, n).len() == n,
    decreases n,
{
    if n > 0 {
        lemma_le_bytes_n_len(x / 256, (n - 1) as nat);
    }
}

/// The value of a little-endian byte sequence.
pub open spec fn le_word(s: Seq<u8>) -> nat
    decreases s.len(),
{
    if s.len() == 0 {
        0
    } else {
        (s[0] + 256 * le_word(s.drop_first())) as nat
    }
}

pub proof fn lemma_le_word_bound(s: Seq<u8>)
    ensures
        le_word(s) < vstd::arithmetic::power2::pow2(8 * s.len()),
    decreases s.len(),
{
    vstd::arithmetic::power2::lemma2_to64();
    if s.len() == 0 {
    } else {
        lemma_le_word_bound(s.drop_first());
        vstd::arithmetic::power2::lemma_pow2_adds(8, 8 * (s.len() - 1) as nat);
    }
}

/// Value of bytes of a value: the round trip is the identity below `2^(8n)`.
pub proof fn lemma_le_bytes_roundtrip(x: nat, n: nat)
    requires
        x < vstd::arithmetic::power2::pow2(8 * n),
    ensures
        le_word(le_bytes_n(x, n)) == x,
    decreases n,
{
    vstd::arithmetic::power2::lemma2_to64();
    if n == 0 {
    } else {
        let s = le_bytes_n(x, n);
        lemma_le_bytes_n_len(x / 256, (n - 1) as nat);
        assert(s.drop_first() =~= le_bytes_n(x / 256, (n - 1) as nat));
        vstd::arithmetic::power2::lemma_pow2_adds(8, 8 * (n - 1) as nat);
        vstd::arithmetic::power2::lemma_pow2_pos(8 * (n - 1) as nat);
        assert(x / 256 < vstd::arithmetic::power2::pow2(8 * (n - 1) as nat)) by (nonlinear_arith)
            requires
                x < 256 * vstd::arithmetic::power2::pow2(8 * (n - 1) as nat),
                vstd::arithmetic::power2::pow2(8 * (n - 1) as nat) > 0,
        ;
        lemma_le_bytes_roundtrip(x / 256, (n - 1) as nat);
    }
}

/// Append the `n` little-endian bytes of a word to a vector, mirroring the
/// recursion of `le_bytes_n`.
pub fn push_le_bytes_n(out: &mut Vec<u8>, x: u64, n: usize)
    requires
        n <= 8,
    ensures
        final(out)@ == old(out)@ + le_bytes_n(x as nat, n as nat),
    decreases n,
{
    if n == 0 {
        proof {
            assert(old(out)@ + le_bytes_n(x as nat, 0) =~= old(out)@);
        }
        return ;
    }
    out.push((x % 256) as u8);
    push_le_bytes_n(out, x / 256, n - 1);
    proof {
        assert(old(out)@ + le_bytes_n(x as nat, n as nat) =~= old(out)@.push(
            (x as nat % 256) as u8,
        ) + le_bytes_n((x / 256) as nat, (n - 1) as nat));
    }
}

/// Append a `u32` as 4 little-endian bytes.
pub fn push_le32(out: &mut Vec<u8>, x: u32)
    ensures
        final(out)@ == old(out)@ + le_bytes_n(x as nat, 4),
{
    push_le_bytes_n(out, x as u64, 4);
}

/// Append a `u64` as 8 little-endian bytes.
pub fn push_le64(out: &mut Vec<u8>, x: u64)
    ensures
        final(out)@ == old(out)@ + le_bytes_n(x as nat, 8),
{
    push_le_bytes_n(out, x, 8);
}

/// Read a 64-bit little-endian word from 8 bytes of a vector.
pub fn le64_at(bytes: &Vec<u8>, off: usize) -> (w: u64)
    requires
        off + 8 <= bytes@.len(),
    ensures
        w == le_word(bytes@.subrange(off as int, off + 8)),
{
    let w = le_word_rec(bytes, off, 8);
    w
}

/// Read a 32-bit little-endian word from 4 bytes of a vector.
pub fn le32_at(bytes: &Vec<u8>, off: usize) -> (w: u32)
    requires
        off + 4 <= bytes@.len(),
    ensures
        w == le_word(bytes@.subrange(off as int, off + 4)),
{
    proof {
        vstd::arithmetic::power2::lemma2_to64();
    }
    let w = le_word_rec(bytes, off, 4);
    w as u32
}

/// Read the `n`-byte little-endian word starting at `off`.
fn le_word_rec(bytes: &Vec<u8>, off: usize, n: usize) -> (w: u64)
    requires
        n <= 8,
        off + n <= bytes@.len(),
    ensures
        w == le_word(bytes@.subrange(off as int, off + n)),
        w < vstd::arithmetic::power2::pow2(8 * n as nat),
    decreases n,
{
    proof {
        vstd::arithmetic::power2::lemma2_to64();
        vstd::arithmetic::power2::lemma2_to64_rest();
    }
    if n == 0 {
        proof {
            assert(bytes@.subrange(off as int, off as int) =~= Seq::<u8>::empty());
        }
        return 0;
    }
    let blen: usize = bytes.len();
    let rest = le_word_rec(bytes, off + 1, n - 1);
    proof {
        vstd::arithmetic::power2::lemma_pow2_adds(8, 8 * (n - 1) as nat);
        let s = bytes@.subrange(off as int, off + n);
        assert(s.drop_first() =~= bytes@.subrange(off + 1, off + 1 + (n - 1)));
    }
    bytes[off] as u64 + 256 * rest
}

} // verus!
