use vstd::arithmetic::div_mod::{lemma_fundamental_div_mod, lemma_mod_pos_bound};
use vstd::arithmetic::power2::{
    lemma2_to64, lemma2_to64_rest, lemma_pow2_pos, lemma_pow2_strictly_increases,
    lemma_pow2_unfold, pow2,
};
use vstd::prelude::*;

verus! {

/// The sign bit of an IEEE-754 binary64 value.
pub open spec fn sign_of_bits(bits: u64) -> int {
    bits as int / 0x8000_0000_0000_0000
}

/// The biased exponent field of an IEEE-754 binary64 value.
pub open spec fn biased_exponent_of_bits(bits: u64) -> int {
    (bits as int / 0x10_0000_0000_0000) % 0x800
}

/// The fraction field of an IEEE-754 binary64 value.
pub open spec fn fraction_of_bits(bits: u64) -> int {
    bits as int % 0x10_0000_0000_0000
}

/// Whether the binary64 value with these bits is a positive finite number.
pub open spec fn bits_are_positive_finite(bits: u64) -> bool {
    sign_of_bits(bits) == 0 && biased_exponent_of_bits(bits) != 0x7ff && !(
    biased_exponent_of_bits(bits) == 0 && fraction_of_bits(bits) == 0)
}

/// The unit-hydrograph time base `x4`, a positive finite binary64 value held
/// exactly as `mantissa * 2^exponent`.
#[derive(Clone, Copy, Debug, PartialEq, Eq, Structural)]
pub struct TimeBase {
    pub mantissa: u64,
    pub exponent: i32,
}

/// The time base that the binary64 value with these bits denotes, where it
/// is positive and finite: subnormal values scale the fraction by `2^-1074`,
/// normal ones add the hidden bit and scale by `2^(biased - 1075)`.
pub open spec fn time_base_of_bits(bits: u64) -> TimeBase {
    if biased_exponent_of_bits(bits) == 0 {
        TimeBase { mantissa: fraction_of_bits(bits) as u64, exponent: -1074i32 }
    } else {
        TimeBase {
            mantissa: (fraction_of_bits(bits) + 0x10_0000_0000_0000) as u64,
            exponent: (biased_exponent_of_bits(bits) - 1075) as i32,
        }
    }
}

/// `2^k` for `k < 64`.
fn power_of_two(k: u32) -> (r: u128)
    requires
        k < 64,
    ensures
        r == pow2(k as nat),
        0 < r <= 0x8000_0000_0000_0000,
{
    let mut r: u128 = 1;
    let mut i: u32 = 0;
    proof {
        lemma2_to64();
        lemma2_to64_rest();
    }
    while i < k
        invariant
            i <= k < 64,
            r == pow2(i as nat),
            pow2(63) == 0x8000_0000_0000_0000,
        decreases k - i,
    {
        proof {
            lemma_pow2_unfold((i + 1) as nat);
            lemma_pow2_strictly_increases(i as nat, 63);
        }
        r = r * 2;
        i = i + 1;
    }
    proof {
        lemma_pow2_pos(k as nat);
        if k < 63 {
            lemma_pow2_strictly_increases(k as nat, 63);
        }
    }
    r
}

impl TimeBase {
    /// The mantissa is positive and below `2^53`, and the exponent is that
    /// of a finite binary64 value or of twice one.
    pub open spec fn wf(self) -> bool {
        &&& 0 < self.mantissa < 0x20_0000_0000_0000
        &&& -1074 <= self.exponent <= 972
    }

    /// A time base that a finite binary64 value can hold.
    pub open spec fn is_binary64(self) -> bool {
        self.wf() && self.exponent <= 971
    }

    /// `t < x4`, for a whole number `t`.
    pub open spec fn exceeds(self, t: int) -> bool {
        if self.exponent >= 0 {
            t < (self.mantissa as int) * (pow2(self.exponent as nat) as int)
        } else {
            t * (pow2((-self.exponent) as nat) as int) < self.mantissa as int
        }
    }

    /// `ceil(x4) == n`, that is `n - 1 < x4 <= n`.
    pub open spec fn has_ceiling(self, n: int) -> bool {
        self.exceeds(n - 1) && !self.exceeds(n)
    }

    /// `x4` is a whole number.
    pub open spec fn is_whole(self) -> bool {
        self.exponent >= 0 || (self.mantissa as int) % (pow2((-self.exponent) as nat) as int) == 0
    }

    /// The time base `2 x4`.
    pub open spec fn spec_doubled(self) -> TimeBase {
        TimeBase { mantissa: self.mantissa, exponent: (self.exponent + 1) as i32 }
    }

    /// Reads a time base from the bits of a binary64 value; `None` where the
    /// value is zero, negative, infinite or not a number.
    pub fn from_bits(bits: u64) -> (r: Option<TimeBase>)
        ensures
            match r {
                Some(tb) => bits_are_positive_finite(bits) && tb == time_base_of_bits(bits)
                    && tb.is_binary64(),
                None => !bits_are_positive_finite(bits),
            },
    {
        let sign = bits / 0x8000_0000_0000_0000;
        let biased = (bits / 0x10_0000_0000_0000) % 0x800;
        let fraction = bits % 0x10_0000_0000_0000;
        if sign != 0 || biased == 0x7ff || (biased == 0 && fraction == 0) {
            None
        } else if biased == 0 {
            Some(TimeBase { mantissa: fraction, exponent: -1074 })
        } else {
            Some(
                TimeBase {
                    mantissa: fraction + 0x10_0000_0000_0000,
                    exponent: biased as i32 - 1075,
                },
            )
        }
    }

    /// The time base `2 x4`, which is finite where `x4` is (the product may
    /// exceed the binary64 range, and is still held exactly).
    pub fn doubled(&self) -> (r: TimeBase)
        requires
            self.is_binary64(),
        ensures
            r == self.spec_doubled(),
            r.wf(),
    {
        TimeBase { mantissa: self.mantissa, exponent: self.exponent + 1 }
    }
    /// Whether `t < x4`.
    pub fn exceeds_whole(&self, t: u64) -> (r: bool)
        requires
            self.wf(),
        ensures
            r == self.exceeds(t as int),
    {
        if self.exponent >= 0 {
            if self.exponent >= 64 {
                proof {
                    lemma2_to64();
                    lemma2_to64_rest();
                    if self.exponent > 64 {
                        lemma_pow2_strictly_increases(64, self.exponent as nat);
                    }
                    assert(self.mantissa * pow2(self.exponent as nat) >= pow2(self.exponent as nat))
                        by (nonlinear_arith)
                        requires
                            self.mantissa >= 1,
                    ;
                }
                true
            } else {
                let p = power_of_two(self.exponent as u32);
                assert(self.mantissa as u128 * p <= 0x20_0000_0000_0000 * 0x8000_0000_0000_0000)
                    by (nonlinear_arith)
                    requires
                        self.mantissa < 0x20_0000_0000_0000,
                        p <= 0x8000_0000_0000_0000,
                ;
                (t as u128) < self.mantissa as u128 * p
            }
        } else {
            let k = (0 - self.exponent) as u32;
            if t == 0 {
                true
            } else if k >= 53 {
                proof {
                    lemma2_to64();
                    lemma2_to64_rest();
                    if k > 53 {
                        lemma_pow2_strictly_increases(53, k as nat);
                    }
                    assert(t * pow2(k as nat) >= pow2(k as nat)) by (nonlinear_arith)
                        requires
                            t >= 1,
                    ;
                }
                false
            } else {
                let p = power_of_two(k);
                assert(t as u128 * p <= 0x1_0000_0000_0000_0000 * 0x8000_0000_0000_0000)
                    by (nonlinear_arith)
                    requires
                        t < 0x1_0000_0000_0000_0000,
                        p <= 0x8000_0000_0000_0000,
                ;
                (t as u128) * p < self.mantissa as u128
            }
        }
    }
    /// `ceil(x4)`, or `None` where it exceeds `usize::MAX`.
    pub fn ceiling(&self) -> (r: Option<usize>)
        requires
            self.wf(),
        ensures
            match r {
                Some(n) => n >= 1 && self.has_ceiling(n as int),
                None => self.exceeds(usize::MAX as int),
            },
    {
        proof {
            lemma2_to64();
            lemma2_to64_rest();
        }
        if self.exponent >= 0 {
            if self.exponent >= 64 {
                proof {
                    if self.exponent > 64 {
                        lemma_pow2_strictly_increases(64, self.exponent as nat);
                    }
                    assert(self.mantissa * pow2(self.exponent as nat) >= pow2(self.exponent as nat))
                        by (nonlinear_arith)
                        requires
                            self.mantissa >= 1,
                    ;
                }
                None
            } else {
                let p = power_of_two(self.exponent as u32);
                assert(p <= self.mantissa as u128 * p <= 0x20_0000_0000_0000
                    * 0x8000_0000_0000_0000) by (nonlinear_arith)
                    requires
                        1 <= self.mantissa < 0x20_0000_0000_0000,
                        p <= 0x8000_0000_0000_0000,
                ;
                let v = self.mantissa as u128 * p;
                if v > usize::MAX as u128 {
                    None
                } else {
                    Some(v as usize)
                }
            }
        } else {
            let k = (0 - self.exponent) as u32;
            if k >= 54 {
                proof {
                    if k > 54 {
                        lemma_pow2_strictly_increases(54, k as nat);
                    }
                }
                Some(1)
            } else {
                let p = power_of_two(k);
                let c = (self.mantissa as u128 + p - 1) / p;
                proof {
                    let a = self.mantissa + p - 1;
                    lemma_fundamental_div_mod(a, p as int);
                    lemma_mod_pos_bound(a, p as int);
                    assert(c * p <= a < c * p + p) by (nonlinear_arith)
                        requires
                            a == p * c + a % (p as int),
                            0 <= a % (p as int) < p,
                    ;
                    assert(c >= 1) by (nonlinear_arith)
                        requires
                            c * p >= self.mantissa + p - 1 - (p - 1),
                            self.mantissa >= 1,
                            p >= 1,
                            c >= 0,
                    ;
                    assert(c * p - p == (c - 1) * p) by (nonlinear_arith);
                }
                if c > usize::MAX as u128 {
                    proof {
                        assert(usize::MAX * p <= (c - 1) * p) by (nonlinear_arith)
                            requires
                                usize::MAX <= c - 1,
                                p >= 1,
                        ;
                    }
                    None
                } else {
                    Some(c as usize)
                }
            }
        }
    }
}

/// Below `x4`, every smaller index is below it too.
pub proof fn lemma_exceeds_downward(x4: TimeBase, a: int, b: int)
    requires
        x4.wf(),
        0 <= a <= b,
        x4.exceeds(b),
    ensures
        x4.exceeds(a),
{
    if x4.exponent < 0 {
        let p = pow2((-x4.exponent) as nat) as int;
        lemma_pow2_pos((-x4.exponent) as nat);
        assert(a * p <= b * p) by (nonlinear_arith)
            requires
                0 <= a <= b,
                p > 0,
        ;
    }
}

/// `2t < 2 x4` exactly when `t < x4`.
pub proof fn lemma_doubled_exceeds(x4: TimeBase, t: int)
    requires
        x4.wf(),
        x4.exponent <= 971,
    ensures
        x4.spec_doubled().exceeds(2 * t) == x4.exceeds(t),
{
    let m = x4.mantissa as int;
    let e = x4.exponent as int;
    let d = x4.spec_doubled();
    assert(d.exponent == e + 1);
    if e >= 0 {
        lemma_pow2_unfold((e + 1) as nat);
        let p = pow2(e as nat) as int;
        assert(pow2(d.exponent as nat) == 2 * p);
        assert(m * (2 * p) == 2 * (m * p)) by (nonlinear_arith);
        assert(d.exceeds(2 * t) == x4.exceeds(t));
    } else if e == -1 {
        lemma2_to64();
        assert(d.exponent == 0);
        assert(pow2((-e) as nat) == 2);
        assert(d.exceeds(2 * t) == x4.exceeds(t));
    } else {
        lemma_pow2_unfold((-e) as nat);
        let p = pow2((-e - 1) as nat) as int;
        assert(pow2((-d.exponent) as nat) == p);
        assert((2 * t) * p == t * (2 * p)) by (nonlinear_arith);
        assert(d.exceeds(2 * t) == x4.exceeds(t));
    }
}

/// Below `x4` means below `2 x4`.
pub proof fn lemma_exceeds_doubled(x4: TimeBase, t: int)
    requires
        x4.wf(),
        x4.exponent <= 971,
        t >= 0,
        x4.exceeds(t),
    ensures
        x4.spec_doubled().exceeds(t),
{
    lemma_doubled_exceeds(x4, t);
    lemma_exceeds_downward(x4.spec_doubled(), t, 2 * t);
}

} // verus!
