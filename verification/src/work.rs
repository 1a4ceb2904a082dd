//! Cumulative proof-of-work, held exactly as a 256-bit integer.
//!
//! The work of one block at difficulty `d` is `2^d` (with `d` at most
//! 200), and chain work is the sum along the ancestry, saturating at the
//! 256-bit maximum. Only the order of work values is consumed by the
//! fork-choice rule.

use vstd::prelude::*;
use vstd::arithmetic::power2::{pow2, lemma_pow2_adds, lemma_pow2_pos};

verus! {

/// A 256-bit work value as four 64-bit limbs, least significant first.
#[derive(Debug, Clone, Copy, PartialEq, Eq, Structural)]
pub struct Work {
    pub l0: u64,
    pub l1: u64,
    pub l2: u64,
    pub l3: u64,
}

/// The numeric value of a work accumulator.
pub open spec fn work_val(w: Work) -> nat {
    (w.l0 + w.l1 * pow2(64) + w.l2 * pow2(128) + w.l3 * pow2(192)) as nat
}

/// The largest representable work value.
pub open spec fn work_max_val() -> nat {
    (pow2(256) - 1) as nat
}

/// Sum of two work values, saturated at the 256-bit maximum.
pub open spec fn sat_add_val(a: nat, b: nat) -> nat {
    if a + b > work_max_val() {
        work_max_val()
    } else {
        a + b
    }
}

proof fn lemma_pow2_val_constants()
    ensures
        pow2(64) == 0x1_0000_0000_0000_0000,
        pow2(128) == pow2(64) * pow2(64),
        pow2(192) == pow2(64) * pow2(128),
        pow2(256) == pow2(64) * pow2(192),
        pow2(64) > 0,
        pow2(128) > 0,
        pow2(192) > 0,
        pow2(256) > 0,
{
    vstd::arithmetic::power2::lemma2_to64_rest();
    lemma_pow2_adds(64, 64);
    lemma_pow2_adds(64, 128);
    lemma_pow2_adds(64, 192);
    lemma_pow2_pos(64);
    lemma_pow2_pos(128);
    lemma_pow2_pos(192);
    lemma_pow2_pos(256);
}

pub proof fn lemma_work_val_bound(w: Work)
    ensures
        work_val(w) < pow2(256),
        work_val(w) <= work_max_val(),
{
    lemma_pow2_val_constants();
    assert(work_val(w) < pow2(256)) by (nonlinear_arith)
        requires
            w.l0 < pow2(64),
            w.l1 < pow2(64),
            w.l2 < pow2(64),
            w.l3 < pow2(64),
            pow2(128) == pow2(64) * pow2(64),
            pow2(192) == pow2(64) * pow2(128),
            pow2(256) == pow2(64) * pow2(192),
            work_val(w) == w.l0 + w.l1 * pow2(64) + w.l2 * pow2(128) + w.l3 * pow2(192),
            pow2(64) == 0x1_0000_0000_0000_0000,
    ;
}

impl Work {
    /// The zero work value.
    pub fn zero() -> (w: Work)
        ensures
            work_val(w) == 0,
    {
        proof {
            lemma_pow2_val_constants();
        }
        Work { l0: 0, l1: 0, l2: 0, l3: 0 }
    }

    /// The work of one block at the given difficulty: `2^bits`.
    pub fn from_difficulty(bits: u32) -> (w: Work)
        requires
            bits <= 255,
        ensures
            work_val(w) == pow2(bits as nat),
    {
        let limb: usize = (bits / 64) as usize;
        let sh: u32 = bits % 64;
        proof {
            lemma_pow2_val_constants();
            vstd::arithmetic::power2::lemma_pow2_strictly_increases(sh as nat, 64);
            lemma_pow2_adds(64 * (bits / 64) as nat, (bits % 64) as nat);
        }
        let v: u64 = 1u64 << sh;
        proof {
            vstd::bits::lemma_u64_shl_is_mul(1u64, sh as u64);
            assert(v == pow2(sh as nat));
        }
        if limb == 0 {
            let w = Work { l0: v, l1: 0, l2: 0, l3: 0 };
            proof {
                assert(work_val(w) == v + 0 * pow2(64) + 0 * pow2(128) + 0 * pow2(192));
                assert(bits % 64 == bits);
                assert(work_val(w) == pow2(bits as nat));
            }
            w
        } else if limb == 1 {
            let w = Work { l0: 0, l1: v, l2: 0, l3: 0 };
            proof {
                assert(work_val(w) == pow2((bits % 64) as nat) * pow2(64)) by (nonlinear_arith)
                    requires
                        w.l1 == pow2((bits % 64) as nat),
                        w.l0 == 0 && w.l2 == 0 && w.l3 == 0,
                        work_val(w) == w.l0 + w.l1 * pow2(64) + w.l2 * pow2(128) + w.l3 * pow2(
                            192,
                        ),
                ;
                lemma_pow2_adds((bits % 64) as nat, 64);
                assert(64 * (bits / 64) as nat + (bits % 64) as nat == bits as nat);
            }
            w
        } else if limb == 2 {
            let w = Work { l0: 0, l1: 0, l2: v, l3: 0 };
            proof {
                assert(work_val(w) == pow2((bits % 64) as nat) * pow2(128)) by (nonlinear_arith)
                    requires
                        w.l2 == pow2((bits % 64) as nat),
                        w.l0 == 0 && w.l1 == 0 && w.l3 == 0,
                        work_val(w) == w.l0 + w.l1 * pow2(64) + w.l2 * pow2(128) + w.l3 * pow2(
                            192,
                        ),
                ;
                lemma_pow2_adds((bits % 64) as nat, 128);
                assert(64 * (bits / 64) as nat + (bits % 64) as nat == bits as nat);
            }
            w
        } else {
            let w = Work { l0: 0, l1: 0, l2: 0, l3: v };
            proof {
                assert(work_val(w) == pow2((bits % 64) as nat) * pow2(192)) by (nonlinear_arith)
                    requires
                        w.l3 == pow2((bits % 64) as nat),
                        w.l0 == 0 && w.l1 == 0 && w.l2 == 0,
                        work_val(w) == w.l0 + w.l1 * pow2(64) + w.l2 * pow2(128) + w.l3 * pow2(
                            192,
                        ),
                ;
                lemma_pow2_adds((bits % 64) as nat, 192);
                assert(64 * (bits / 64) as nat + (bits % 64) as nat == bits as nat);
            }
            w
        }
    }

    /// Add two work values, saturating at the 256-bit maximum.
    pub fn sat_add(&self, other: &Work) -> (r: Work)
        ensures
            work_val(r) == sat_add_val(work_val(*self), work_val(*other)),
    {
        proof {
            lemma_pow2_val_constants();
            lemma_work_val_bound(*self);
            lemma_work_val_bound(*other);
        }
        let base: u128 = 0x1_0000_0000_0000_0000;
        let s0: u128 = self.l0 as u128 + other.l0 as u128;
        let r0: u64 = (s0 % base) as u64;
        let c0: u128 = s0 / base;
        let s1: u128 = self.l1 as u128 + other.l1 as u128 + c0;
        let r1: u64 = (s1 % base) as u64;
        let c1: u128 = s1 / base;
        let s2: u128 = self.l2 as u128 + other.l2 as u128 + c1;
        let r2: u64 = (s2 % base) as u64;
        let c2: u128 = s2 / base;
        let s3: u128 = self.l3 as u128 + other.l3 as u128 + c2;
        let r3: u64 = (s3 % base) as u64;
        let c3: u128 = s3 / base;
        let r = Work { l0: r0, l1: r1, l2: r2, l3: r3 };
        proof {
            lemma_work_val_bound(r);
            let a = work_val(*self);
            let b = work_val(*other);
            assert(c0 <= 1 && c1 <= 1 && c2 <= 1 && c3 <= 1);
            assert(work_val(r) + c3 * pow2(256) == a + b) by (nonlinear_arith)
                requires
                    pow2(64) == 0x1_0000_0000_0000_0000,
                    pow2(128) == pow2(64) * pow2(64),
                    pow2(192) == pow2(64) * pow2(128),
                    pow2(256) == pow2(64) * pow2(192),
                    s0 == self.l0 + other.l0,
                    r0 == s0 % 0x1_0000_0000_0000_0000,
                    c0 == s0 / 0x1_0000_0000_0000_0000,
                    s1 == self.l1 + other.l1 + c0,
                    r1 == s1 % 0x1_0000_0000_0000_0000,
                    c1 == s1 / 0x1_0000_0000_0000_0000,
                    s2 == self.l2 + other.l2 + c1,
                    r2 == s2 % 0x1_0000_0000_0000_0000,
                    c2 == s2 / 0x1_0000_0000_0000_0000,
                    s3 == self.l3 + other.l3 + c2,
                    r3 == s3 % 0x1_0000_0000_0000_0000,
                    c3 == s3 / 0x1_0000_0000_0000_0000,
                    a == self.l0 + self.l1 * pow2(64) + self.l2 * pow2(128) + self.l3 * pow2(192),
                    b == other.l0 + other.l1 * pow2(64) + other.l2 * pow2(128) + other.l3 * pow2(
                        192,
                    ),
                    work_val(r) == r0 + r1 * pow2(64) + r2 * pow2(128) + r3 * pow2(192),
            ;
        }
        if c3 > 0 {
            let m = Work { l0: u64::MAX, l1: u64::MAX, l2: u64::MAX, l3: u64::MAX };
            proof {
                assert(c3 == 1);
                assert(work_val(*self) + work_val(*other) == work_val(r) + pow2(256));
                assert(work_val(m) == pow2(256) - 1) by (nonlinear_arith)
                    requires
                        pow2(64) == 0x1_0000_0000_0000_0000,
                        pow2(128) == pow2(64) * pow2(64),
                        pow2(192) == pow2(64) * pow2(128),
                        pow2(256) == pow2(64) * pow2(192),
                        work_val(m) == (pow2(64) - 1) + (pow2(64) - 1) * pow2(64) + (pow2(64) - 1)
                            * pow2(128) + (pow2(64) - 1) * pow2(192),
                ;
            }
            proof {
                assert(work_val(m) == sat_add_val(work_val(*self), work_val(*other)));
            }
            m
        } else {
            proof {
                assert(c3 == 0);
                assert(work_val(r) == work_val(*self) + work_val(*other));
                assert(work_val(r) == sat_add_val(work_val(*self), work_val(*other)));
            }
            r
        }
    }

    /// Strict order on work values.
    pub fn lt(&self, other: &Work) -> (r: bool)
        ensures
            r == (work_val(*self) < work_val(*other)),
    {
        proof {
            lemma_work_cmp(*self, *other);
            lemma_work_cmp(*other, *self);
        }
        if self.l3 != other.l3 {
            self.l3 < other.l3
        } else if self.l2 != other.l2 {
            self.l2 < other.l2
        } else if self.l1 != other.l1 {
            self.l1 < other.l1
        } else {
            self.l0 < other.l0
        }
    }
}

/// Lexicographic limb comparison decides the numeric order.
proof fn lemma_work_cmp(a: Work, b: Work)
    ensures
        a.l3 < b.l3 ==> work_val(a) < work_val(b),
        a.l3 == b.l3 && a.l2 < b.l2 ==> work_val(a) < work_val(b),
        a.l3 == b.l3 && a.l2 == b.l2 && a.l1 < b.l1 ==> work_val(a) < work_val(b),
        a.l3 == b.l3 && a.l2 == b.l2 && a.l1 == b.l1 ==> (work_val(a) < work_val(b) <==> a.l0
            < b.l0),
{
    lemma_pow2_val_constants();
    assert((a.l3 < b.l3 ==> work_val(a) < work_val(b)) && (a.l3 == b.l3 && a.l2 < b.l2
        ==> work_val(a) < work_val(b)) && (a.l3 == b.l3 && a.l2 == b.l2 && a.l1 < b.l1
        ==> work_val(a) < work_val(b)) && (a.l3 == b.l3 && a.l2 == b.l2 && a.l1 == b.l1 ==> (
    work_val(a) < work_val(b) <==> a.l0 < b.l0))) by (nonlinear_arith)
        requires
            a.l0 < pow2(64) && a.l1 < pow2(64) && a.l2 < pow2(64) && a.l3 < pow2(64),
            b.l0 < pow2(64) && b.l1 < pow2(64) && b.l2 < pow2(64) && b.l3 < pow2(64),
            pow2(128) == pow2(64) * pow2(64),
            pow2(192) == pow2(64) * pow2(128),
            pow2(64) == 0x1_0000_0000_0000_0000,
            work_val(a) == a.l0 + a.l1 * pow2(64) + a.l2 * pow2(128) + a.l3 * pow2(192),
            work_val(b) == b.l0 + b.l1 * pow2(64) + b.l2 * pow2(128) + b.l3 * pow2(192),
    ;
}

} // verus!
