//! The linearly weighted moving-average difficulty engine.
//!
//! Difficulty is a count of leading zero bits, tracked fractionally in
//! fixed point with 20 fractional bits so that retargeting is exact
//! integer arithmetic and replays identically on every platform. The
//! next difficulty moves by `-log2(avg / target)` where `avg` is the
//! linearly weighted average solve time over a sliding window, clamped
//! per block and scaled by a warmup factor while the window fills.

use vstd::prelude::*;
use vstd::arithmetic::power2::pow2;
use crate::params::{TARGET_BLOCK_TIME, INITIAL_DIFFICULTY};

verus! {

/// Sliding window size of the difficulty engine.
pub const DIFFICULTY_WINDOW: usize = 60;

/// Lower difficulty bound in bits.
pub const MIN_DIFFICULTY: u32 = 4;

/// Upper difficulty bound in bits.
pub const MAX_DIFFICULTY: u32 = 200;

/// Fixed-point units per difficulty bit: `2^20`.
pub const FP_SCALE: u64 = 1048576;

/// Half a unit, for rounding.
pub const FP_HALF: u64 = 524288;

/// Maximum adjustment per block: half a bit, in fixed-point units.
pub const MAX_ADJUSTMENT_FP: u64 = 524288;

/// The initial fractional difficulty in fixed-point units.
pub const INITIAL_DIFFICULTY_FP: u64 = 8388608;

/// Clamp of one solve time: at least 1 second, at most six target block
/// times; a non-increasing timestamp counts as zero before clamping.
pub open spec fn clamp_solve(prev: u64, cur: u64) -> u64 {
    let d: u64 = if cur > prev {
        (cur - prev) as u64
    } else {
        0u64
    };
    if d < 1 {
        1u64
    } else if d > 6 * TARGET_BLOCK_TIME {
        (6 * TARGET_BLOCK_TIME) as u64
    } else {
        d
    }
}

/// Linearly weighted sum of the first `w - 1` solve times of the window
/// starting at `start`: solve time `i` carries weight `i`.
pub open spec fn weighted_sum(ts: Seq<u64>, start: int, w: int) -> int
    decreases w,
{
    if w <= 1 {
        0
    } else {
        weighted_sum(ts, start, w - 1) + clamp_solve(ts[start + w - 2], ts[start + w - 1]) * (w - 1)
    }
}

/// Total of the weights `1 .. w`.
pub open spec fn weight_total(w: int) -> int
    decreases w,
{
    if w <= 1 {
        0
    } else {
        weight_total(w - 1) + (w - 1)
    }
}

// ─── Fixed-point base-2 logarithm ────────────────────────────────────

/// Number of doublings that bring `m` up to the mantissa range
/// `[2^63, 2^64)`.
pub open spec fn norm_steps(m: nat) -> nat
    decreases (pow2(64) - m)
        when 1 <= m
        via norm_steps_decreases
{
    if m >= pow2(63) {
        0
    } else {
        1 + norm_steps(2 * m)
    }
}

/// The normalized mantissa of `m` in `[2^63, 2^64)`.
pub open spec fn norm_mant(m: nat) -> nat
    decreases (pow2(64) - m)
        when 1 <= m
        via norm_mant_decreases
{
    if m >= pow2(63) {
        m
    } else {
        norm_mant(2 * m)
    }
}

#[via_fn]
proof fn norm_steps_decreases(m: nat) {
    vstd::arithmetic::power2::lemma_pow2_adds(63, 1);
    vstd::arithmetic::power2::lemma2_to64();
}

#[via_fn]
proof fn norm_mant_decreases(m: nat) {
    vstd::arithmetic::power2::lemma_pow2_adds(63, 1);
    vstd::arithmetic::power2::lemma2_to64();
}

/// `k` fractional log2 bits of a normalized mantissa, by repeated
/// squaring.
pub open spec fn log2_frac_bits(m: nat, k: nat) -> nat
    decreases k,
{
    if k == 0 {
        0
    } else {
        let sq = m * m;
        if sq >= pow2(127) {
            (pow2((k - 1) as nat) + log2_frac_bits(sq / pow2(64), (k - 1) as nat)) as nat
        } else {
            log2_frac_bits(sq / pow2(63), (k - 1) as nat)
        }
    }
}

/// `log2(x)` in fixed point with 20 fractional bits, for `x >= 1`.
pub open spec fn spec_log2_fp(x: nat) -> int {
    (63 - norm_steps(x)) * FP_SCALE + log2_frac_bits(norm_mant(x), 20)
}

/// Compute the fixed-point base-2 logarithm of a positive value.
fn log2_fp(x: u64) -> (r: u64)
    requires
        x >= 1,
    ensures
        r == spec_log2_fp(x as nat),
        r <= 64 * FP_SCALE,
{
    proof {
        vstd::arithmetic::power2::lemma2_to64_rest();
        vstd::arithmetic::power2::lemma2_to64();
    }
    let mut m: u128 = x as u128;
    let mut sh: u64 = 0;
    while m < 0x8000_0000_0000_0000u128
        invariant
            1 <= m,
            m < pow2(64),
            sh <= 63,
            pow2(sh as nat) <= m,
            norm_steps(x as nat) == sh + norm_steps(m as nat),
            norm_mant(x as nat) == norm_mant(m as nat),
            pow2(63) == 0x8000_0000_0000_0000,
            pow2(64) == 0x1_0000_0000_0000_0000,
        decreases (0x1_0000_0000_0000_0000u128 - m) as int,
    {
        let ghost old_m = m as nat;
        proof {
            vstd::arithmetic::power2::lemma_pow2_adds(sh as nat, 1);
            vstd::arithmetic::power2::lemma2_to64();
            if sh + 1 > 63 {
                vstd::arithmetic::power2::lemma_pow2_strictly_increases(63, (sh + 1) as nat);
                assert(false);
            }
            assert(norm_steps(old_m) == 1 + norm_steps(2 * old_m));
            assert(norm_mant(old_m) == norm_mant(2 * old_m));
        }
        m = m * 2;
        sh = sh + 1;
    }
    let int_part: u64 = 63 - sh;
    proof {
        assert(norm_steps(m as nat) == 0);
        assert(norm_mant(m as nat) == m);
    }

    // Extract 20 fractional bits by repeated squaring of the mantissa.
    let mut frac: u64 = 0;
    let mut k: u64 = 20;
    let ghost m0 = m as nat;
    while k > 0
        invariant
            k <= 20,
            pow2(63) <= m < pow2(64),
            frac * pow2(k as nat) + log2_frac_bits(m as nat, k as nat) == log2_frac_bits(m0, 20),
            frac < pow2((20 - k) as nat),
            pow2(63) == 0x8000_0000_0000_0000,
            pow2(64) == 0x1_0000_0000_0000_0000,
        decreases k,
    {
        proof {
            vstd::arithmetic::power2::lemma2_to64_rest();
            vstd::arithmetic::power2::lemma2_to64();
            vstd::arithmetic::power2::lemma_pow2_adds(64, 63);
            vstd::arithmetic::power2::lemma_pow2_adds(64, 64);
            vstd::arithmetic::power2::lemma_pow2_adds(63, 63);
            vstd::arithmetic::power2::lemma_pow2_adds(63, 64);
            assert(m * m < pow2(64) * pow2(64) && m * m >= pow2(63) * pow2(63)) by (
            nonlinear_arith)
                requires
                    pow2(63) <= m < pow2(64),
            ;
        }
        let sq: u128 = m * m;
        let ghost old_frac = frac;
        let ghost old_k = k;
        let ghost old_m = m as nat;
        if sq >= 0x8000_0000_0000_0000_0000_0000_0000_0000u128 {
            // The squared ratio is at least 2: emit a 1 bit.
            frac = frac * 2 + 1;
            m = sq / 0x1_0000_0000_0000_0000u128;
            proof {
                assert(pow2(127) == 0x8000_0000_0000_0000_0000_0000_0000_0000) by {
                    vstd::arithmetic::power2::lemma_pow2_adds(64, 63);
                }
                assert(m >= pow2(63)) by (nonlinear_arith)
                    requires
                        m == sq as nat / pow2(64),
                        sq >= pow2(127),
                        pow2(64) > 0,
                        pow2(127) == pow2(64) * pow2(63),
                ;
                assert(m < pow2(64)) by (nonlinear_arith)
                    requires
                        m == sq as nat / pow2(64),
                        sq < pow2(64) * pow2(64),
                        pow2(64) > 0,
                ;
            }
        } else {
            frac = frac * 2;
            m = sq / 0x8000_0000_0000_0000u128;
            proof {
                assert(pow2(127) == 0x8000_0000_0000_0000_0000_0000_0000_0000) by {
                    vstd::arithmetic::power2::lemma_pow2_adds(64, 63);
                }
                assert(m >= pow2(63)) by (nonlinear_arith)
                    requires
                        m == sq as nat / pow2(63),
                        sq >= pow2(63) * pow2(63),
                        pow2(63) > 0,
                        pow2(126) == pow2(63) * pow2(63),
                ;
                assert(m < pow2(64)) by (nonlinear_arith)
                    requires
                        m == sq as nat / pow2(63),
                        sq < pow2(127),
                        pow2(63) > 0,
                        pow2(127) == pow2(63) * pow2(64),
                ;
            }
        }
        k = k - 1;
        proof {
            vstd::arithmetic::power2::lemma_pow2_adds((20 - old_k) as nat, 1);
            vstd::arithmetic::power2::lemma_pow2_adds((old_k - 1) as nat, 1);
            let sqn = old_m * old_m;
            let bit: int = if sqn >= pow2(127) {
                1
            } else {
                0
            };
            assert(log2_frac_bits(old_m, old_k as nat) == bit * pow2((old_k - 1) as nat)
                + log2_frac_bits(m as nat, (old_k - 1) as nat));
            assert(frac == 2 * old_frac + bit);
            assert(frac * pow2(k as nat) + log2_frac_bits(m as nat, k as nat) == old_frac * pow2(
                old_k as nat,
            ) + log2_frac_bits(old_m, old_k as nat)) by (nonlinear_arith)
                requires
                    frac == 2 * old_frac + bit,
                    k == old_k - 1,
                    old_k >= 1,
                    pow2(old_k as nat) == pow2((old_k - 1) as nat) * 2,
                    log2_frac_bits(old_m, old_k as nat) == bit * pow2((old_k - 1) as nat)
                        + log2_frac_bits(m as nat, (old_k - 1) as nat),
            ;
            assert(frac < pow2((20 - k) as nat)) by (nonlinear_arith)
                requires
                    frac == 2 * old_frac + bit,
                    bit <= 1,
                    old_frac < pow2((20 - old_k) as nat),
                    k == old_k - 1,
                    old_k >= 1,
                    pow2((20 - k) as nat) == pow2((20 - old_k) as nat) * 2,
            ;
        }
    }
    proof {
        assert(log2_frac_bits(m as nat, 0) == 0);
        assert(pow2(0) == 1) by {
            vstd::arithmetic::power2::lemma2_to64();
        }
        assert(frac * pow2(0) == frac) by (nonlinear_arith)
            requires
                pow2(0) == 1,
        ;
        assert(frac == log2_frac_bits(m0, 20));
        assert(frac < pow2(20));
        assert(pow2(20) == 1048576) by {
            vstd::arithmetic::power2::lemma2_to64();
        }
    }
    int_part * FP_SCALE + frac
}

// ─── The retarget step ───────────────────────────────────────────────

/// The next fractional difficulty, in fixed point, from the current one
/// and a timestamp list: weighted average of clamped solve times over
/// the most recent window, adjusted by its log2 distance from the
/// target, clamped per block and by warmup, bounded to the difficulty
/// range.
pub open spec fn spec_next_difficulty_fp(current: u64, ts: Seq<u64>) -> u64 {
    let n = ts.len() as int;
    if n < 2 {
        current
    } else {
        let w = if n < 60 {
            n
        } else {
            60
        };
        let start = n - w;
        let ws = weighted_sum(ts, start, w);
        let wt = weight_total(w);
        if wt == 0 {
            current
        } else {
            let raw: int = spec_log2_fp((TARGET_BLOCK_TIME * wt) as nat) - spec_log2_fp(ws as nat);
            let cap: int = {
                let warm = FP_SCALE * (w - 1) / 120;
                if warm < MAX_ADJUSTMENT_FP {
                    warm
                } else {
                    MAX_ADJUSTMENT_FP as int
                }
            };
            let adj: int = if raw < -cap {
                -cap
            } else if raw > cap {
                cap
            } else {
                raw
            };
            clamp_difficulty_fp(current + adj)
        }
    }
}

/// Clamp a fixed-point difficulty to the allowed range.
pub open spec fn clamp_difficulty_fp(v: int) -> u64 {
    if v < MIN_DIFFICULTY * FP_SCALE {
        (MIN_DIFFICULTY * FP_SCALE) as u64
    } else if v > MAX_DIFFICULTY * FP_SCALE {
        (MAX_DIFFICULTY * FP_SCALE) as u64
    } else {
        v as u64
    }
}

/// The integer difficulty of a fixed-point value: round to nearest,
/// clamped to the difficulty range.
pub open spec fn spec_fp_to_integer(v: u64) -> u32 {
    let rounded = (v + FP_HALF) as int / (FP_SCALE as int);
    if rounded < MIN_DIFFICULTY {
        MIN_DIFFICULTY
    } else if rounded > MAX_DIFFICULTY {
        MAX_DIFFICULTY
    } else {
        rounded as u32
    }
}

/// Round a fixed-point difficulty to integer bits, clamped to the range.
pub fn fractional_to_integer_difficulty(v: u64) -> (r: u32)
    ensures
        r == spec_fp_to_integer(v),
{
    let rounded: u64 = ((v as u128 + FP_HALF as u128) / FP_SCALE as u128) as u64;
    if rounded < MIN_DIFFICULTY as u64 {
        MIN_DIFFICULTY
    } else if rounded > MAX_DIFFICULTY as u64 {
        MAX_DIFFICULTY
    } else {
        rounded as u32
    }
}

/// The next fractional difficulty over a prefix of a timestamp vector.
pub fn next_difficulty_fp_prefix(current: u64, ts: &Vec<u64>, len: usize) -> (r: u64)
    requires
        len <= ts@.len(),
    ensures
        r == spec_next_difficulty_fp(current, ts@.subrange(0, len as int)),
{
    let ghost s = ts@.subrange(0, len as int);
    if len < 2 {
        return current;
    }
    let w: usize = if len < DIFFICULTY_WINDOW {
        len
    } else {
        DIFFICULTY_WINDOW
    };
    let start: usize = len - w;
    let mut ws: u64 = 0;
    let mut wt: u64 = 0;
    let mut i: usize = 1;
    while i < w
        invariant
            1 <= i <= w,
            2 <= w <= 60,
            start + w <= ts@.len(),
            len <= ts@.len(),
            s == ts@.subrange(0, len as int),
            start == len - w,
            ws == weighted_sum(s, start as int, i as int),
            wt == weight_total(i as int),
            wt <= i * 60,
            ws <= 540 * wt,
        decreases w - i,
    {
        let prev = ts[start + i - 1];
        let cur = ts[start + i];
        let d: u64 = if cur > prev {
            cur - prev
        } else {
            0
        };
        let clamped: u64 = if d < 1 {
            1
        } else if d > 6 * TARGET_BLOCK_TIME {
            6 * TARGET_BLOCK_TIME
        } else {
            d
        };
        proof {
            assert(s[start + i - 1] == ts@[start + i - 1] && s[start + i] == ts@[start + i]);
            assert(clamped == clamp_solve(s[start + i - 1], s[start + i]));
            assert(clamped * i <= 540 * i) by (nonlinear_arith)
                requires
                    clamped <= 540,
                    i >= 1,
            ;
            assert(weighted_sum(s, start as int, i + 1) == weighted_sum(s, start as int, i as int)
                + clamp_solve(s[start + i - 1], s[start + i]) * (i as int));
        }
        ws = ws + clamped * (i as u64);
        wt = wt + (i as u64);
        i = i + 1;
    }
    if wt == 0 {
        return current;
    }
    proof {
        lemma_weighted_sum_at_least(s, start as int, w as int);
    }
    let target_total: u64 = TARGET_BLOCK_TIME * wt;
    let la = log2_fp(target_total);
    let lb = log2_fp(ws);
    let raw: i128 = la as i128 - lb as i128;
    let warm: u64 = FP_SCALE * ((w - 1) as u64) / 120;
    let cap: i128 = if warm < MAX_ADJUSTMENT_FP {
        warm as i128
    } else {
        MAX_ADJUSTMENT_FP as i128
    };
    let adj: i128 = if raw < -cap {
        -cap
    } else if raw > cap {
        cap
    } else {
        raw
    };
    let v: i128 = current as i128 + adj;
    let lo: i128 = (MIN_DIFFICULTY as i128) * (FP_SCALE as i128);
    let hi: i128 = (MAX_DIFFICULTY as i128) * (FP_SCALE as i128);
    if v < lo {
        (MIN_DIFFICULTY as u64) * FP_SCALE
    } else if v > hi {
        (MAX_DIFFICULTY as u64) * FP_SCALE
    } else {
        v as u64
    }
}

/// The weighted sum is at least the weight total, since every clamped
/// solve time is at least one.
proof fn lemma_weighted_sum_at_least(ts: Seq<u64>, start: int, w: int)
    ensures
        weighted_sum(ts, start, w) >= weight_total(w),
    decreases w,
{
    if w > 1 {
        lemma_weighted_sum_at_least(ts, start, w - 1);
        let c = clamp_solve(ts[start + w - 2], ts[start + w - 1]);
        assert(c * (w - 1) >= w - 1) by (nonlinear_arith)
            requires
                c >= 1,
                w >= 2,
        ;
    }
}

/// Compute the next fractional difficulty over a full timestamp vector.
pub fn calculate_next_difficulty_fractional(current: u64, timestamps: &Vec<u64>) -> (r: u64)
    ensures
        r == spec_next_difficulty_fp(current, timestamps@),
{
    let n = timestamps.len();
    let r = next_difficulty_fp_prefix(current, timestamps, n);
    proof {
        assert(timestamps@.subrange(0, n as int) =~= timestamps@);
    }
    r
}

/// Compute the next integer difficulty from an integer current one.
pub fn calculate_next_difficulty(current: u32, timestamps: &Vec<u64>) -> (r: u32)
    requires
        current <= MAX_DIFFICULTY,
    ensures
        r == spec_fp_to_integer(
            spec_next_difficulty_fp((current * FP_SCALE) as u64, timestamps@),
        ),
{
    let fp = (current as u64) * FP_SCALE;
    let next = calculate_next_difficulty_fractional(fp, timestamps);
    fractional_to_integer_difficulty(next)
}

// ─── Replay ──────────────────────────────────────────────────────────

/// The fractional difficulty reached by folding the retarget step over
/// every prefix of a timestamp list, from the initial difficulty.
pub open spec fn replay_frac(ts: Seq<u64>) -> u64
    decreases ts.len(),
{
    if ts.len() < 2 {
        INITIAL_DIFFICULTY_FP
    } else {
        spec_next_difficulty_fp(replay_frac(ts.drop_last()), ts)
    }
}

/// Replay the difficulty engine over the whole timestamp list from the
/// initial difficulty, as side-chain validation does.
pub fn replay_difficulty_fp(ts: &Vec<u64>) -> (r: u64)
    ensures
        r == replay_frac(ts@),
{
    let n = ts.len();
    let mut frac: u64 = INITIAL_DIFFICULTY_FP;
    let mut end: usize = 1;
    if n < 2 {
        return frac;
    }
    while end < n
        invariant
            1 <= end <= n,
            n == ts@.len(),
            frac == replay_frac(ts@.subrange(0, end as int)),
        decreases n - end,
    {
        frac = next_difficulty_fp_prefix(frac, ts, end + 1);
        proof {
            let pre = ts@.subrange(0, end + 1);
            assert(pre.drop_last() =~= ts@.subrange(0, end as int));
            assert(pre.len() >= 2);
        }
        end = end + 1;
    }
    proof {
        assert(ts@.subrange(0, n as int) =~= ts@);
    }
    frac
}

// ─── Window-suffix agreement ─────────────────────────────────────────

/// The weighted sums agree between a list and its suffix when the
/// window lies inside both.
proof fn lemma_weighted_sum_shift(a: Seq<u64>, b: Seq<u64>, sa: int, sb: int, w: int)
    requires
        0 <= sa,
        0 <= sb,
        sa + w <= a.len(),
        sb + w <= b.len(),
        a.subrange(sa, sa + w) == b.subrange(sb, sb + w),
    ensures
        weighted_sum(a, sa, w) == weighted_sum(b, sb, w),
    decreases w,
{
    if w > 1 {
        assert(a.subrange(sa, sa + w - 1) =~= b.subrange(sb, sb + w - 1)) by {
            assert(forall|j: int|
                0 <= j < w ==> #[trigger] a.subrange(sa, sa + w)[j] == b.subrange(sb, sb + w)[j]);
        }
        lemma_weighted_sum_shift(a, b, sa, sb, w - 1);
        assert(a[sa + w - 2] == a.subrange(sa, sa + w)[w - 2]);
        assert(a[sa + w - 1] == a.subrange(sa, sa + w)[w - 1]);
        assert(b[sb + w - 2] == b.subrange(sb, sb + w)[w - 2]);
        assert(b[sb + w - 1] == b.subrange(sb, sb + w)[w - 1]);
    }
}

/// One retarget step reads only the last `DIFFICULTY_WINDOW` timestamps:
/// a suffix of at least that length gives the same next difficulty.
pub proof fn lemma_next_fp_suffix(current: u64, ts: Seq<u64>, k: int)
    requires
        60 <= k <= ts.len(),
    ensures
        spec_next_difficulty_fp(current, ts) == spec_next_difficulty_fp(
            current,
            ts.subrange(ts.len() - k, ts.len() as int),
        ),
{
    let n = ts.len() as int;
    let s2 = ts.subrange(n - k, n);
    assert(s2.len() == k);
    let start1 = n - 60;
    let start2 = k - 60;
    assert(ts.subrange(start1, start1 + 60) =~= s2.subrange(start2, start2 + 60));
    lemma_weighted_sum_shift(ts, s2, start1, start2, 60);
}

} // verus!
