//! 32-byte hashes, their byte representation, leading-zero-bit counting,
//! and the trusted wrappers around the cryptographic hash functions.

use sha2::Digest;
use vstd::prelude::*;
use vstd::arithmetic::power2::{pow2, lemma_pow2_adds, lemma_pow2_strictly_increases};

verus! {

/// A 32-byte hash, held as four 64-bit words in big-endian order:
/// `w0` covers bytes 0..8 of the hash, `w3` bytes 24..32.
#[derive(Clone, Copy, Debug, PartialEq, Eq, Structural)]
pub struct Hash256 {
    pub w0: u64,
    pub w1: u64,
    pub w2: u64,
    pub w3: u64,
}

/// The distinguished all-zero hash, used as "no parent" for the genesis block.
pub open spec fn spec_null_hash() -> Hash256 {
    Hash256 { w0: 0, w1: 0, w2: 0, w3: 0 }
}

/// The all-zero hash value.
pub fn null_hash() -> (h: Hash256)
    ensures
        h == spec_null_hash(),
{
    Hash256 { w0: 0, w1: 0, w2: 0, w3: 0 }
}

// ─── Bytes and words ─────────────────────────────────────────────────

/// The big-endian value of a byte sequence.
pub open spec fn word_of_be_bytes(s: Seq<u8>) -> nat
    decreases s.len(),
{
    if s.len() == 0 {
        0
    } else {
        (word_of_be_bytes(s.drop_last()) * 256 + s.last()) as nat
    }
}

/// The `n` big-endian bytes of a value (least significant byte last).
pub open spec fn be_bytes_n(x: nat, n: nat) -> Seq<u8>
    decreases n,
{
    if n == 0 {
        Seq::empty()
    } else {
        be_bytes_n(x / 256, (n - 1) as nat).push((x % 256) as u8)
    }
}

pub proof fn lemma_be_bytes_n_len(x: nat, n: nat)
    ensures
        be_bytes_n(x, n).len() == n,
    decreases n,
{
    if n > 0 {
        lemma_be_bytes_n_len(x / 256, (n - 1) as nat);
    }
}

pub proof fn lemma_word_of_be_bytes_n(x: nat, n: nat)
    ensures
        word_of_be_bytes(be_bytes_n(x, n)) == x % pow2(8 * n),
    decreases n,
{
    if n == 0 {
        assert(pow2(0) == 1) by {
            vstd::arithmetic::power2::lemma2_to64();
        }
    } else {
        lemma_be_bytes_n_len(x / 256, (n - 1) as nat);
        let s = be_bytes_n(x, n);
        assert(s.drop_last() =~= be_bytes_n(x / 256, (n - 1) as nat));
        lemma_word_of_be_bytes_n(x / 256, (n - 1) as nat);
        assert(pow2(8 * n) == pow2(8 * (n - 1) as nat) * 256) by {
            lemma_pow2_adds(8 * (n - 1) as nat, 8);
            vstd::arithmetic::power2::lemma2_to64();
        }
        vstd::arithmetic::power2::lemma_pow2_pos(8 * (n - 1) as nat);
        vstd::arithmetic::div_mod::lemma_mod_breakdown(
            x as int,
            256,
            pow2(8 * (n - 1) as nat) as int,
        );
    }
}

pub proof fn lemma_word_of_be_bytes_bound(s: Seq<u8>)
    ensures
        word_of_be_bytes(s) < pow2(8 * s.len()),
    decreases s.len(),
{
    if s.len() == 0 {
        assert(pow2(0) == 1) by {
            vstd::arithmetic::power2::lemma2_to64();
        }
    } else {
        lemma_word_of_be_bytes_bound(s.drop_last());
        lemma_pow2_adds(8 * (s.len() - 1) as nat, 8);
        assert(pow2(8) == 256) by {
            vstd::arithmetic::power2::lemma2_to64();
        }
    }
}

/// Bytes of a value, then the value of those bytes: the round trip is the
/// identity for values under `2^(8n)`.
pub proof fn lemma_be_bytes_roundtrip(x: nat, n: nat)
    requires
        x < pow2(8 * n),
    ensures
        word_of_be_bytes(be_bytes_n(x, n)) == x,
{
    lemma_word_of_be_bytes_n(x, n);
    vstd::arithmetic::div_mod::lemma_small_mod(x, pow2(8 * n));
}

/// The value of bytes, then its bytes: the identity on length-`n` sequences.
pub proof fn lemma_be_bytes_of_word(s: Seq<u8>, n: nat)
    requires
        s.len() == n,
    ensures
        be_bytes_n(word_of_be_bytes(s), n) == s,
    decreases n,
{
    if n > 0 {
        let x = word_of_be_bytes(s);
        let hi = word_of_be_bytes(s.drop_last());
        assert(x == hi * 256 + s.last());
        assert(x / 256 == hi && x % 256 == s.last()) by (nonlinear_arith)
            requires
                x == hi * 256 + s.last(),
                0 <= s.last() < 256,
        ;
        lemma_be_bytes_of_word(s.drop_last(), (n - 1) as nat);
        assert(be_bytes_n(x, n) =~= s);
    }
}

/// The big-endian byte representation of a 32-byte hash.
pub open spec fn hash_bytes(h: Hash256) -> Seq<u8> {
    be_bytes_n(h.w0 as nat, 8) + be_bytes_n(h.w1 as nat, 8) + be_bytes_n(h.w2 as nat, 8)
        + be_bytes_n(h.w3 as nat, 8)
}

/// The hash whose big-endian byte representation is a 32-byte sequence.
pub open spec fn hash_of_bytes(s: Seq<u8>) -> Hash256 {
    Hash256 {
        w0: word_of_be_bytes(s.subrange(0, 8)) as u64,
        w1: word_of_be_bytes(s.subrange(8, 16)) as u64,
        w2: word_of_be_bytes(s.subrange(16, 24)) as u64,
        w3: word_of_be_bytes(s.subrange(24, 32)) as u64,
    }
}

pub proof fn lemma_hash_bytes_len(h: Hash256)
    ensures
        hash_bytes(h).len() == 32,
{
    lemma_be_bytes_n_len(h.w0 as nat, 8);
    lemma_be_bytes_n_len(h.w1 as nat, 8);
    lemma_be_bytes_n_len(h.w2 as nat, 8);
    lemma_be_bytes_n_len(h.w3 as nat, 8);
}

pub proof fn lemma_hash_bytes_roundtrip(h: Hash256)
    ensures
        hash_of_bytes(hash_bytes(h)) == h,
{
    lemma_hash_bytes_len(h);
    lemma_be_bytes_n_len(h.w0 as nat, 8);
    lemma_be_bytes_n_len(h.w1 as nat, 8);
    lemma_be_bytes_n_len(h.w2 as nat, 8);
    lemma_be_bytes_n_len(h.w3 as nat, 8);
    let s = hash_bytes(h);
    assert(s.subrange(0, 8) =~= be_bytes_n(h.w0 as nat, 8));
    assert(s.subrange(8, 16) =~= be_bytes_n(h.w1 as nat, 8));
    assert(s.subrange(16, 24) =~= be_bytes_n(h.w2 as nat, 8));
    assert(s.subrange(24, 32) =~= be_bytes_n(h.w3 as nat, 8));
    assert(pow2(64) == 0x1_0000_0000_0000_0000) by {
        vstd::arithmetic::power2::lemma2_to64_rest();
    }
    lemma_be_bytes_roundtrip(h.w0 as nat, 8);
    lemma_be_bytes_roundtrip(h.w1 as nat, 8);
    lemma_be_bytes_roundtrip(h.w2 as nat, 8);
    lemma_be_bytes_roundtrip(h.w3 as nat, 8);
}

/// Read one big-endian 64-bit word from 8 bytes of a slice.
fn be_word_at(bytes: &[u8], off: usize) -> (w: u64)
    requires
        off + 8 <= bytes@.len(),
    ensures
        w == word_of_be_bytes(bytes@.subrange(off as int, off + 8)),
{
    proof {
        vstd::arithmetic::power2::lemma2_to64();
    }
    let blen: usize = bytes.len();
    let mut w: u64 = 0;
    let mut i: usize = 0;
    while i < 8
        invariant
            0 <= i <= 8,
            off + 8 <= blen,
            blen == bytes@.len(),
            w == word_of_be_bytes(bytes@.subrange(off as int, off + i)),
            w < pow2(8 * i as nat),
        decreases 8 - i,
    {
        proof {
            lemma_pow2_adds(8 * i as nat, 8);
            vstd::arithmetic::power2::lemma2_to64();
            vstd::arithmetic::power2::lemma2_to64_rest();
            if i < 7 {
                lemma_pow2_strictly_increases(8 * (i + 1) as nat, 64);
            }
            assert(bytes@.subrange(off as int, off + i + 1).drop_last() =~= bytes@.subrange(
                off as int,
                off + i,
            ));
        }
        let b = bytes[off + i];
        w = w * 256 + (b as u64);
        i = i + 1;
    }
    w
}

impl Hash256 {
    /// Build a hash from its 32 big-endian bytes.
    pub fn from_bytes(bytes: &[u8]) -> (h: Hash256)
        requires
            bytes@.len() == 32,
        ensures
            h == hash_of_bytes(bytes@),
    {
        Hash256 {
            w0: be_word_at(bytes, 0),
            w1: be_word_at(bytes, 8),
            w2: be_word_at(bytes, 16),
            w3: be_word_at(bytes, 24),
        }
    }

    /// The 32 big-endian bytes of this hash.
    pub fn to_bytes(&self) -> (r: Vec<u8>)
        ensures
            r@ == hash_bytes(*self),
            r@.len() == 32,
    {
        let mut out: Vec<u8> = Vec::new();
        push_be_word(&mut out, self.w0);
        push_be_word(&mut out, self.w1);
        push_be_word(&mut out, self.w2);
        push_be_word(&mut out, self.w3);
        proof {
            lemma_hash_bytes_len(*self);
            assert(out@ =~= hash_bytes(*self));
        }
        out
    }

    /// Whether this is the all-zero hash.
    pub fn is_null(&self) -> (b: bool)
        ensures
            b == (*self == spec_null_hash()),
    {
        self.w0 == 0 && self.w1 == 0 && self.w2 == 0 && self.w3 == 0
    }
}

/// Append the big-endian bytes of the low `n` bytes of a word to a vector,
/// mirroring the recursion of `be_bytes_n`.
fn push_be_bytes_n(out: &mut Vec<u8>, x: u64, n: usize)
    requires
        n <= 8,
    ensures
        final(out)@ == old(out)@ + be_bytes_n(x as nat, n as nat),
    decreases n,
{
    if n == 0 {
        proof {
            assert(old(out)@ + be_bytes_n(x as nat, 0) =~= old(out)@);
        }
        return ;
    }
    push_be_bytes_n(out, x / 256, n - 1);
    out.push((x % 256) as u8);
    proof {
        assert(old(out)@ + be_bytes_n(x as nat, n as nat) =~= (old(out)@ + be_bytes_n(
            (x / 256) as nat,
            (n - 1) as nat,
        )).push((x as nat % 256) as u8));
    }
}

/// Append the 8 big-endian bytes of a word to a byte vector.
fn push_be_word(out: &mut Vec<u8>, x: u64)
    ensures
        final(out)@ == old(out)@ + be_bytes_n(x as nat, 8),
{
    push_be_bytes_n(out, x, 8);
}

// ─── Leading zero bits ───────────────────────────────────────────────

/// Number of bits needed to write a value: `0` for `0`, else one more
/// than for its half.
pub open spec fn bitlen(n: nat) -> nat
    decreases n,
{
    if n == 0 {
        0
    } else {
        1 + bitlen(n / 2)
    }
}

pub proof fn lemma_bitlen_le(n: nat, k: nat)
    requires
        n < pow2(k),
    ensures
        bitlen(n) <= k,
    decreases n,
{
    if n > 0 {
        if k == 0 {
            assert(pow2(0) == 1) by {
                vstd::arithmetic::power2::lemma2_to64();
            }
        } else {
            assert(pow2(k) == 2 * pow2((k - 1) as nat)) by {
                lemma_pow2_adds(1, (k - 1) as nat);
                vstd::arithmetic::power2::lemma2_to64();
            }
            lemma_bitlen_le(n / 2, (k - 1) as nat);
        }
    }
}

/// The value of a 32-byte hash read as one big-endian 256-bit number.
pub open spec fn hash_val(h: Hash256) -> nat {
    (h.w0 * pow2(192) + h.w1 * pow2(128) + h.w2 * pow2(64) + h.w3) as nat
}

/// Count of leading zero bits of a hash, out of 256.
pub open spec fn spec_leading_zero_bits(h: Hash256) -> u32 {
    (256 - bitlen(hash_val(h))) as u32
}

/// `bitlen(a * 2^k + b) == k + bitlen(a)` when `a >= 1` and `b < 2^k`.
proof fn lemma_bitlen_shift(a: nat, b: nat, k: nat)
    requires
        a >= 1,
        b < pow2(k),
    ensures
        bitlen(a * pow2(k) + b) == k + bitlen(a),
    decreases k,
{
    if k == 0 {
        assert(pow2(0) == 1) by {
            vstd::arithmetic::power2::lemma2_to64();
        }
        assert(b == 0);
        assert(a * pow2(k) + b == a) by (nonlinear_arith)
            requires
                pow2(k) == 1,
                b == 0,
        ;
    } else {
        let v = (a * pow2(k) + b) as nat;
        assert(pow2(k) == pow2((k - 1) as nat) * 2) by {
            lemma_pow2_adds((k - 1) as nat, 1);
            vstd::arithmetic::power2::lemma2_to64();
        }
        vstd::arithmetic::power2::lemma_pow2_pos((k - 1) as nat);
        vstd::arithmetic::power2::lemma_pow2_pos(k);
        assert(v / 2 == a * pow2((k - 1) as nat) + b / 2) by (nonlinear_arith)
            requires
                v == a * (pow2((k - 1) as nat) * 2) + b,
        ;
        assert(b / 2 < pow2((k - 1) as nat));
        assert(v > 0) by (nonlinear_arith)
            requires
                a >= 1,
                pow2(k) > 0,
                v == a * pow2(k) + b,
        ;
        assert(bitlen(v) == 1 + bitlen(v / 2));
        lemma_bitlen_shift(a, b / 2, (k - 1) as nat);
        assert(bitlen((a * pow2(k) + b) as nat) == k + bitlen(a));
    }
}

/// Number of bits needed for a 64-bit value.
fn bitlen64(x: u64) -> (r: u32)
    ensures
        r == bitlen(x as nat),
        r <= 64,
{
    proof {
        assert(pow2(64) == 0x1_0000_0000_0000_0000) by {
            vstd::arithmetic::power2::lemma2_to64_rest();
        }
        lemma_bitlen_le(x as nat, 64);
    }
    let mut y: u64 = x;
    let mut n: u32 = 0;
    while y > 0
        invariant
            bitlen(x as nat) == n + bitlen(y as nat),
            bitlen(x as nat) <= 64,
        decreases y,
    {
        proof {
            assert(bitlen(y as nat) == 1 + bitlen((y as nat) / 2));
        }
        y = y / 2;
        n = n + 1;
    }
    n
}

/// Count leading zero bits of a hash, reading it as a 256-bit big-endian value.
pub fn leading_zero_bits(hash: &Hash256) -> (r: u32)
    ensures
        r == spec_leading_zero_bits(*hash),
        r <= 256,
{
    proof {
        assert(pow2(64) == 0x1_0000_0000_0000_0000) by {
            vstd::arithmetic::power2::lemma2_to64_rest();
        }
        lemma_pow2_adds(64, 64);
        lemma_pow2_adds(64, 128);
        lemma_hash_val_decompose(*hash);
    }
    if hash.w0 != 0 {
        64 - bitlen64(hash.w0)
    } else if hash.w1 != 0 {
        128 - bitlen64(hash.w1)
    } else if hash.w2 != 0 {
        192 - bitlen64(hash.w2)
    } else if hash.w3 != 0 {
        256 - bitlen64(hash.w3)
    } else {
        256
    }
}

/// How `bitlen` of the whole 256-bit value follows from the first nonzero word.
proof fn lemma_hash_val_decompose(h: Hash256)
    ensures
        h.w0 != 0 ==> bitlen(hash_val(h)) == 192 + bitlen(h.w0 as nat),
        h.w0 == 0 && h.w1 != 0 ==> bitlen(hash_val(h)) == 128 + bitlen(h.w1 as nat),
        h.w0 == 0 && h.w1 == 0 && h.w2 != 0 ==> bitlen(hash_val(h)) == 64 + bitlen(h.w2 as nat),
        h.w0 == 0 && h.w1 == 0 && h.w2 == 0 ==> bitlen(hash_val(h)) == bitlen(h.w3 as nat),
        bitlen(h.w0 as nat) <= 64,
        bitlen(h.w1 as nat) <= 64,
        bitlen(h.w2 as nat) <= 64,
        bitlen(h.w3 as nat) <= 64,
{
    assert(pow2(64) == 0x1_0000_0000_0000_0000) by {
        vstd::arithmetic::power2::lemma2_to64_rest();
    }
    lemma_pow2_adds(64, 64);
    lemma_pow2_adds(64, 128);
    lemma_bitlen_le(h.w0 as nat, 64);
    lemma_bitlen_le(h.w1 as nat, 64);
    lemma_bitlen_le(h.w2 as nat, 64);
    lemma_bitlen_le(h.w3 as nat, 64);
    let rest1 = (h.w1 * pow2(128) + h.w2 * pow2(64) + h.w3) as nat;
    let rest2 = (h.w2 * pow2(64) + h.w3) as nat;
    assert(rest2 < pow2(128)) by (nonlinear_arith)
        requires
            h.w2 < pow2(64),
            h.w3 < pow2(64),
            pow2(128) == pow2(64) * pow2(64),
            rest2 == h.w2 * pow2(64) + h.w3,
    ;
    assert(rest1 < pow2(192)) by (nonlinear_arith)
        requires
            h.w1 < pow2(64),
            rest2 < pow2(128),
            pow2(192) == pow2(64) * pow2(128),
            rest1 == h.w1 * pow2(128) + rest2,
    ;
    if h.w0 != 0 {
        lemma_bitlen_shift(h.w0 as nat, rest1, 192);
    } else if h.w1 != 0 {
        lemma_bitlen_shift(h.w1 as nat, rest2, 128);
    } else if h.w2 != 0 {
        lemma_bitlen_shift(h.w2 as nat, h.w3 as nat, 64);
    }
}

// ─── Trusted hash wrappers ───────────────────────────────────────────

/// The SHA-256 digest of a byte string: a function of the input alone.
pub uninterp spec fn sha256_of(data: Seq<u8>) -> Seq<u8>;

/// The BLAKE3 digest of a byte string: a function of the input alone.
pub uninterp spec fn blake3_of(data: Seq<u8>) -> Seq<u8>;

/// Relies on sha2::Sha256::digest: a 32-byte digest that depends on the
/// input bytes alone.
#[verifier::external_body]
pub fn sha256(data: &[u8]) -> (r: Vec<u8>)
    ensures
        r@ == sha256_of(data@),
        r@.len() == 32,
{
    sha2::Sha256::digest(data).to_vec()
}

/// Relies on blake3::hash: a 32-byte digest that depends on the input
/// bytes alone.
#[verifier::external_body]
pub fn blake3_hash(data: &[u8]) -> (r: Vec<u8>)
    ensures
        r@ == blake3_of(data@),
        r@.len() == 32,
{
    blake3::hash(data).as_bytes().to_vec()
}

/// Double SHA-256 of a byte string.
pub open spec fn dsha256_of(data: Seq<u8>) -> Seq<u8> {
    sha256_of(sha256_of(data))
}

/// Compute the double SHA-256 digest.
pub fn double_sha256(data: &[u8]) -> (r: Vec<u8>)
    ensures
        r@ == dsha256_of(data@),
        r@.len() == 32,
{
    let first = sha256(data);
    sha256(first.as_slice())
}

/// Double SHA-256 of a byte string, as a 32-byte hash value.
pub open spec fn dsha256_hash_of(data: Seq<u8>) -> Hash256 {
    hash_of_bytes(dsha256_of(data))
}

/// Compute the double SHA-256 digest as a hash value.
pub fn double_sha256_hash(data: &[u8]) -> (h: Hash256)
    ensures
        h == dsha256_hash_of(data@),
{
    let d = double_sha256(data);
    Hash256::from_bytes(d.as_slice())
}

/// The "pubkey hash" of the chain: double SHA-256 of the public key bytes.
pub fn pubkey_bytes_to_hash(pubkey: &[u8]) -> (h: Hash256)
    ensures
        h == dsha256_hash_of(pubkey@),
{
    double_sha256_hash(pubkey)
}

} // verus!
