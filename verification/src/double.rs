//! Double-precision arithmetic on non-negative numbers, carried out on integers.
//!
//! A value is a whole number of at most 53 bits times a power of two. Every operation gives the
//! representable number nearest to the exact result, ties going to the even one: what IEEE 754
//! prescribes for binary64. The exponent is not limited, so the subnormal range, where binary64
//! keeps fewer bits, is not modelled; nothing here rests on a number that small.

use vstd::arithmetic::power2::{lemma_pow2_adds, lemma_pow2_pos, lemma_pow2_strictly_increases, lemma_pow2_unfold, pow2};
use vstd::prelude::*;

verus! {

/// The number `mant * 2^exp`.
#[derive(Debug, Clone, Copy, PartialEq, Eq, Structural)]
pub struct Double {
    pub mant: u64,
    pub exp: i32,
}

/// The mathematical side of a [`Double`]: `m * 2^e`.
pub struct Dyadic {
    pub m: nat,
    pub e: int,
}

impl View for Double {
    type V = Dyadic;

    open spec fn view(&self) -> Dyadic {
        Dyadic { m: self.mant as nat, e: self.exp as int }
    }
}

/// `n / d` as a whole number, to the nearest, halves to the even neighbour.
pub open spec fn nearest_even(n: nat, d: nat) -> nat {
    let q = n / d;
    let r = n % d;
    if 2 * r < d || (2 * r == d && q % 2 == 0) {
        q
    } else {
        q + 1
    }
}

/// The representable number nearest to `n / d * 2^k`: the fraction is scaled by two until it has
/// 53 bits before the point, then rounded.
pub open spec fn rounded(n: nat, d: nat, k: int) -> Dyadic
    recommends
        d > 0,
    decreases
            (if n < 0x10_0000_0000_0000 * d {
                0x10_0000_0000_0000 * d - n + 1
            } else if n >= 0x20_0000_0000_0000 * d {
                n - 0x20_0000_0000_0000 * d + 1
            } else {
                0
            }),
{
    if n == 0 || d == 0 {
        Dyadic { m: 0, e: 0 }
    } else if n < 0x10_0000_0000_0000 * d {
        rounded(2 * n, d, k - 1)
    } else if n >= 0x20_0000_0000_0000 * d {
        rounded(n, 2 * d, k + 1)
    } else {
        let q = nearest_even(n, d);
        if q == 0x20_0000_0000_0000 {
            Dyadic { m: 0x10_0000_0000_0000, e: k + 1 }
        } else {
            Dyadic { m: q, e: k }
        }
    }
}

impl Dyadic {
    pub open spec fn of_nat(n: nat) -> Dyadic {
        rounded(n, 1, 0)
    }

    /// The number with this binary64 bit pattern: a sign bit, which is zero here, eleven bits of
    /// exponent and 52 digits behind a leading one that is left out.
    pub open spec fn of_bits(bits: u64) -> Dyadic {
        let exponent = (bits / 0x10_0000_0000_0000) % 2048;
        let digits = bits % 0x10_0000_0000_0000;
        if exponent == 0 {
            Dyadic { m: digits as nat, e: -1074 }
        } else {
            Dyadic { m: (0x10_0000_0000_0000 + digits) as nat, e: exponent - 1075 }
        }
    }

    pub open spec fn times(self, other: Dyadic) -> Dyadic {
        rounded(self.m * other.m, 1, self.e + other.e)
    }

    pub open spec fn over(self, other: Dyadic) -> Dyadic {
        rounded(self.m, other.m, self.e - other.e)
    }

    /// The largest whole number not above this one.
    pub open spec fn floor(self) -> nat {
        if self.e >= 0 {
            self.m * pow2(self.e as nat)
        } else {
            self.m / pow2((-self.e) as nat)
        }
    }

    /// The smallest whole number not below this one.
    pub open spec fn ceiling(self) -> nat {
        if self.e >= 0 {
            self.m * pow2(self.e as nat)
        } else {
            (self.m + pow2((-self.e) as nat) - 1) as nat / pow2((-self.e) as nat)
        }
    }

    /// The part after the point, in units of `2^-120`.
    pub open spec fn fraction(self) -> nat
        recommends
            self.e >= -120,
    {
        if self.e >= 0 {
            0
        } else {
            (self.m % pow2((-self.e) as nat)) * pow2((120 + self.e) as nat)
        }
    }

    /// This number is not above `other`.
    pub open spec fn at_most(self, other: Dyadic) -> bool {
        if self.e <= other.e {
            self.m <= other.m * pow2((other.e - self.e) as nat)
        } else {
            self.m * pow2((self.e - other.e) as nat) <= other.m
        }
    }
}

impl Double {
    /// The range in which the operations below work; every finite binary64 lies in it.
    pub open spec fn wf(self) -> bool {
        &&& self.mant < 0x20_0000_0000_0000
        &&& -2_000 <= self.exp <= 2_000
    }

    /// The number whose binary64 bit pattern is `bits`; nothing for a negative number, an
    /// infinity or a NaN.
    pub fn from_bits(bits: u64) -> (res: Option<Double>)
        ensures
            res is Some <==> bits < 0x8000_0000_0000_0000 && (bits / 0x10_0000_0000_0000) % 2048
                != 2047,
            res matches Some(x) ==> x.wf() && x@ == Dyadic::of_bits(bits),
    {
        if bits >= 0x8000_0000_0000_0000 {
            return None;
        }
        let exponent: u64 = (bits / 0x10_0000_0000_0000) % 2048;
        let digits: u64 = bits % 0x10_0000_0000_0000;
        if exponent == 2047 {
            None
        } else if exponent == 0 {
            Some(Double { mant: digits, exp: -1074 })
        } else {
            Some(Double { mant: 0x10_0000_0000_0000 + digits, exp: exponent as i32 - 1075 })
        }
    }

    /// The number nearest to `n`.
    pub fn from_u64(n: u64) -> (res: Double)
        ensures
            res.wf(),
            res@ == Dyadic::of_nat(n as nat),
            n > 0 ==> res.mant > 0,
            -110 <= res.exp <= 110,
    {
        round(n as u128, 1, 0)
    }

    pub fn times(self, other: Double) -> (res: Double)
        requires
            self.wf(),
            other.wf(),
        ensures
            res.mant < 0x20_0000_0000_0000,
            res@ == self@.times(other@),
            res.mant > 0 ==> self.exp + other.exp - 110 <= res.exp <= self.exp + other.exp + 110,
            res.mant == 0 ==> res.exp == 0,
    {
        assert(self.mant * other.mant < 0x400_0000_0000_0000_0000_0000_0000u128)
            by (nonlinear_arith)
            requires
                self.mant < 0x20_0000_0000_0000,
                other.mant < 0x20_0000_0000_0000,
        ;
        round(self.mant as u128 * other.mant as u128, 1, self.exp + other.exp)
    }

    pub fn over(self, other: Double) -> (res: Double)
        requires
            self.wf(),
            other.wf(),
            other.mant > 0,
        ensures
            res.mant < 0x20_0000_0000_0000,
            res@ == self@.over(other@),
            res.mant > 0 ==> self.exp - other.exp - 110 <= res.exp <= self.exp - other.exp + 110,
            res.mant == 0 ==> res.exp == 0,
    {
        round(self.mant as u128, other.mant as u128, self.exp - other.exp)
    }

    /// Drops what follows the point; a number past `u64::MAX` gives `u64::MAX`.
    pub fn floor(self) -> (res: u64)
        requires
            self.mant < 0x20_0000_0000_0000,
            -10_000 <= self.exp <= 10_000,
        ensures
            res == (if self@.floor() <= u64::MAX { self@.floor() } else { u64::MAX as nat }),
    {
        proof {
            vstd::arithmetic::power2::lemma2_to64_rest();
            vstd::arithmetic::power2::lemma2_to64();
        }
        if self.exp >= 64 {
            proof {
                lemma_pow2_mono(64, self.exp as nat);
                if self.mant > 0 {
                    assert(self@.floor() >= pow2(64)) by (nonlinear_arith)
                        requires
                            self@.floor() == self.mant * pow2(self.exp as nat),
                            self.mant >= 1,
                            pow2(self.exp as nat) >= pow2(64),
                    ;
                } else {
                    assert(0 * pow2(self.exp as nat) == 0);
                }
            }
            if self.mant == 0 {
                0
            } else {
                u64::MAX
            }
        } else if self.exp >= 0 {
            proof {
                lemma_pow2_mono(self.exp as nat, 64);
                assert(self.mant * pow2(self.exp as nat) < 0x20_0000_0000_0000
                    * 0x1_0000_0000_0000_0000) by (nonlinear_arith)
                    requires
                        self.mant < 0x20_0000_0000_0000,
                        pow2(self.exp as nat) <= 0x1_0000_0000_0000_0000,
                ;
            }
            let whole: u128 = self.mant as u128 * two_to(self.exp as u32);
            if whole > u64::MAX as u128 {
                u64::MAX
            } else {
                whole as u64
            }
        } else if self.exp <= -54 {
            proof {
                lemma_pow2_mono(54, (-self.exp) as nat);
                vstd::arithmetic::div_mod::lemma_basic_div(
                    self.mant as int,
                    pow2((-self.exp) as nat) as int,
                );
            }
            0
        } else {
            let unit: u128 = two_to((-self.exp) as u32);
            proof {
                lemma_pow2_pos((-self.exp) as nat);
                vstd::arithmetic::div_mod::lemma_div_nonincreasing(self.mant as int, unit as int);
            }
            (self.mant as u128 / unit) as u64
        }
    }

    /// Rounds up to a whole number; a number past `u64::MAX` gives `u64::MAX`.
    pub fn ceiling(self) -> (res: u64)
        requires
            self.mant < 0x20_0000_0000_0000,
            -10_000 <= self.exp <= 10_000,
        ensures
            res == (if self@.ceiling() <= u64::MAX { self@.ceiling() } else { u64::MAX as nat }),
    {
        let whole = self.floor();
        if self.exp >= 0 {
            return whole;
        }
        proof {
            vstd::arithmetic::power2::lemma2_to64_rest();
            vstd::arithmetic::power2::lemma2_to64();
            lemma_pow2_pos((-self.exp) as nat);
        }
        let ghost unit = pow2((-self.exp) as nat) as int;
        if self.exp <= -54 {
            proof {
                lemma_pow2_mono(54, (-self.exp) as nat);
                if self.mant > 0 {
                    vstd::arithmetic::div_mod::lemma_fundamental_div_mod_converse(
                        self.mant + unit - 1,
                        unit,
                        1,
                        self.mant - 1,
                    );
                } else {
                    vstd::arithmetic::div_mod::lemma_basic_div(unit - 1, unit);
                }
            }
            if self.mant == 0 {
                0
            } else {
                1
            }
        } else {
            let size: u128 = two_to((-self.exp) as u32);
            proof {
                lemma_pow2_mono((-self.exp) as nat, 53);
                lemma_ceiling_by_quotient(self.mant as int, unit);
                vstd::arithmetic::div_mod::lemma_div_nonincreasing(self.mant as int, unit);
            }
            let up: u128 = (self.mant as u128 + size - 1) / size;
            up as u64
        }
    }

    /// The part after the point, in units of `2^-120`.
    pub fn fraction(self) -> (res: u128)
        requires
            self.mant < 0x20_0000_0000_0000,
            -120 <= self.exp <= 10_000,
        ensures
            res == self@.fraction(),
            res < pow2(120),
    {
        proof {
            lemma_pow2_pos(120);
        }
        if self.exp >= 0 {
            return 0;
        }
        let shift: u32 = (-self.exp) as u32;
        let ghost unit = pow2(shift as nat) as int;
        proof {
            vstd::arithmetic::power2::lemma2_to64_rest();
            lemma_pow2_pos(shift as nat);
        }
        let part: u128 = if shift >= 53 {
            proof {
                lemma_pow2_mono(53, shift as nat);
                vstd::arithmetic::div_mod::lemma_small_mod(self.mant as nat, unit as nat);
            }
            self.mant as u128
        } else {
            self.mant as u128 % two_to(shift)
        };
        proof {
            vstd::arithmetic::div_mod::lemma_mod_bound(self.mant as int, unit);
            lemma_pow2_adds(shift as nat, (120 - shift) as nat);
            lemma_pow2_pos((120 - shift) as nat);
            assert(part * pow2((120 - shift) as nat) < unit * pow2((120 - shift) as nat))
                by (nonlinear_arith)
                requires
                    part < unit,
                    pow2((120 - shift) as nat) > 0,
            ;
            lemma_pow2_120();
        }
        part * two_to(120 - shift)
    }

    /// Compares two numbers.
    pub fn at_most(self, other: Double) -> (res: bool)
        requires
            self.wf(),
            other.wf(),
        ensures
            res == self@.at_most(other@),
    {
        let (low, high, shift): (u64, u64, u32) = if self.exp <= other.exp {
            (self.mant, other.mant, (other.exp - self.exp) as u32)
        } else {
            (other.mant, self.mant, (self.exp - other.exp) as u32)
        };
        proof {
            vstd::arithmetic::power2::lemma2_to64_rest();
            vstd::arithmetic::power2::lemma2_to64();
            if shift >= 53 {
                lemma_pow2_mono(53, shift as nat);
                if high > 0 {
                    assert(high * pow2(shift as nat) >= 0x20_0000_0000_0000) by (nonlinear_arith)
                        requires
                            high >= 1,
                            pow2(shift as nat) >= 0x20_0000_0000_0000,
                    ;
                }
            } else {
                lemma_pow2_mono(shift as nat, 53);
                assert(high * pow2(shift as nat) <= 0x20_0000_0000_0000 * 0x20_0000_0000_0000)
                    by (nonlinear_arith)
                    requires
                        high < 0x20_0000_0000_0000,
                        pow2(shift as nat) <= 0x20_0000_0000_0000,
                ;
            }
            assert(0 * pow2(shift as nat) == 0);
        }
        if self.exp <= other.exp {
            if high == 0 {
                low == 0
            } else {
                shift >= 53 || low as u128 <= high as u128 * two_to(shift)
            }
        } else {
            high == 0 || (shift < 53 && high as u128 * two_to(shift) <= low as u128)
        }
    }
}

/// `2^shift`
fn two_to(shift: u32) -> (res: u128)
    requires
        shift <= 120,
    ensures
        res == pow2(shift as nat),
{
    let mut res: u128 = 1;
    let mut done: u32 = 0;
    proof {
        vstd::arithmetic::power2::lemma2_to64();
    }
    while done < shift
        invariant
            done <= shift <= 120,
            res == pow2(done as nat),
        decreases shift - done,
    {
        proof {
            lemma_pow2_mono(done as nat + 1, 120);
            lemma_pow2_unfold((done + 1) as nat);
            lemma_pow2_120();
        }
        res = 2 * res;
        done = done + 1;
    }
    res
}

/// Rounds `n / d * 2^k`.
fn round(n: u128, d: u128, k: i32) -> (res: Double)
    requires
        0 < d <= 0x20_0000_0000_0000,
        n < 0x400_0000_0000_0000_0000_0000_0000,
        -10_000 <= k <= 10_000,
    ensures
        res@ == rounded(n as nat, d as nat, k as int),
        res.mant < 0x20_0000_0000_0000,
        n > 0 ==> res.mant >= 0x10_0000_0000_0000,
        n > 0 ==> k - 110 <= res.exp <= k + 110,
        n == 0 ==> res.mant == 0 && res.exp == 0,
{
    if n == 0 {
        return Double { mant: 0, exp: 0 };
    }
    let ghost n0 = n as nat;
    let ghost d0 = d as nat;
    let mut n = n;
    let mut d = d;
    let mut exp: i32 = k;
    proof {
        assert(pow2(0) == 1) by {
            vstd::arithmetic::power2::lemma2_to64();
        }
    }
    while n < 0x10_0000_0000_0000u128 * d
        invariant
            n > 0,
            0 < d <= 0x20_0000_0000_0000,
            n < 0x400_0000_0000_0000_0000_0000_0000,
            -10_000 <= k <= 10_000,
            n == n0 || n < 0x20_0000_0000_0000 * d,
            k - 106 <= exp <= k,
            n >= pow2((k - exp) as nat),
            rounded(n as nat, d as nat, exp as int) == rounded(n0, d0, k as int),
        decreases 0x20_0000_0000_0000 * d - n,
    {
        proof {
            lemma_pow2_106();
            if k - exp >= 106 {
                lemma_pow2_mono(106, (k - exp) as nat);
            }
            lemma_pow2_unfold((k - exp + 1) as nat);
        }
        n = 2 * n;
        exp = exp - 1;
    }
    let ghost exp1 = exp;
    let ghost d1 = d;
    while n >= 0x20_0000_0000_0000u128 * d
        invariant
            n > 0,
            0 < d <= 0x40_0000_0000_0000,
            n >= 0x10_0000_0000_0000 * d,
            n < 0x400_0000_0000_0000_0000_0000_0000,
            -10_000 <= k <= 10_000,
            k - 106 <= exp1 <= k,
            exp1 <= exp <= exp1 + 106,
            d >= pow2((exp - exp1) as nat),
            rounded(n as nat, d as nat, exp as int) == rounded(n0, d0, k as int),
        decreases n - d,
    {
        proof {
            lemma_pow2_106();
            if exp - exp1 >= 106 {
                lemma_pow2_mono(106, (exp - exp1) as nat);
            }
            lemma_pow2_unfold((exp - exp1 + 1) as nat);
        }
        d = 2 * d;
        exp = exp + 1;
    }
    let q = n / d;
    let r = n % d;
    proof {
        assert(0x10_0000_0000_0000 <= q < 0x20_0000_0000_0000) by (nonlinear_arith)
            requires
                q == n / d,
                d > 0,
                n >= 0x10_0000_0000_0000 * d,
                n < 0x20_0000_0000_0000 * d,
        ;
    }
    let up = !(2 * r < d || (2 * r == d && q % 2 == 0));
    let m = if up {
        q + 1
    } else {
        q
    };
    if m == 0x20_0000_0000_0000u128 {
        Double { mant: 0x10_0000_0000_0000, exp: exp + 1 }
    } else {
        Double { mant: m as u64, exp }
    }
}

proof fn lemma_pow2_106()
    ensures
        pow2(106) == 0x400_0000_0000_0000_0000_0000_0000,
{
    vstd::arithmetic::power2::lemma2_to64_rest();
    lemma_pow2_adds(53, 53);
    assert(0x20_0000_0000_0000 * 0x20_0000_0000_0000 == 0x400_0000_0000_0000_0000_0000_0000) by (nonlinear_arith);
}

proof fn lemma_pow2_120()
    ensures
        pow2(120) == 0x100_0000_0000_0000_0000_0000_0000_0000,
{
    vstd::arithmetic::power2::lemma2_to64_rest();
    vstd::arithmetic::power2::lemma2_to64();
    lemma_pow2_adds(60, 60);
    assert(0x1000_0000_0000_0000 * 0x1000_0000_0000_0000
        == 0x100_0000_0000_0000_0000_0000_0000_0000) by (nonlinear_arith);
}

/// Rounding a quotient up never goes past the dividend.
proof fn lemma_ceiling_by_quotient(n: int, unit: int)
    requires
        n >= 0,
        unit > 0,
    ensures
        0 <= (n + unit - 1) / unit <= n,
{
    assert(0 <= (n + unit - 1) / unit <= n) by (nonlinear_arith)
        requires
            n >= 0,
            unit > 0,
    ;
}

proof fn lemma_pow2_mono(a: nat, b: nat)
    requires
        a <= b,
    ensures
        pow2(a) <= pow2(b),
{
    if a < b {
        lemma_pow2_strictly_increases(a, b);
    }
}

/// A number in units of `2^-400`.
pub open spec fn scaled(x: Dyadic) -> nat {
    x.m * pow2((x.e + 400) as nat)
}

/// A rounded number has its full 53 bits, and no smaller an exponent than the fraction's size
/// tells.
proof fn lemma_rounded_range(n: nat, d: nat, k: int, j: int)
    requires
        n > 0,
        d > 0,
        j >= 0 ==> n >= 0x10_0000_0000_0000 * d * pow2(j as nat),
        j < 0 ==> n * pow2((-j) as nat) >= 0x10_0000_0000_0000 * d,
    ensures
        rounded(n, d, k).e >= k + j,
        0x10_0000_0000_0000 <= rounded(n, d, k).m < 0x20_0000_0000_0000,
    decreases
            (if n < 0x10_0000_0000_0000 * d {
                0x10_0000_0000_0000 * d - n + 1
            } else if n >= 0x20_0000_0000_0000 * d {
                n - 0x20_0000_0000_0000 * d + 1
            } else {
                0
            }),
{
    vstd::arithmetic::power2::lemma2_to64();
    if j >= 0 {
        lemma_pow2_pos(j as nat);
        assert(0x10_0000_0000_0000 * d * pow2(j as nat) >= 0x10_0000_0000_0000 * d)
            by (nonlinear_arith)
            requires
                pow2(j as nat) >= 1,
        ;
    } else {
        lemma_pow2_pos((-j) as nat);
    }
    if n < 0x10_0000_0000_0000 * d {
        lemma_pow2_unfold((-j) as nat);
        assert(2 * n * pow2((-j - 1) as nat) == n * pow2((-j) as nat)) by (nonlinear_arith)
            requires
                pow2((-j) as nat) == 2 * pow2((-j - 1) as nat),
        ;
        if j == -1 {
            assert(0x10_0000_0000_0000 * d * pow2(0) == 0x10_0000_0000_0000 * d)
                by (nonlinear_arith)
                requires
                    pow2(0) == 1,
            ;
            assert(2 * n * pow2(0) == 2 * n) by (nonlinear_arith)
                requires
                    pow2(0) == 1,
            ;
        }
        lemma_rounded_range(2 * n, d, k - 1, j + 1);
    } else if n >= 0x20_0000_0000_0000 * d {
        if j >= 1 {
            lemma_pow2_unfold(j as nat);
            assert(0x10_0000_0000_0000 * (2 * d) * pow2((j - 1) as nat) == 0x10_0000_0000_0000 * d
                * pow2(j as nat)) by (nonlinear_arith)
                requires
                    pow2(j as nat) == 2 * pow2((j - 1) as nat),
            ;
        } else {
            lemma_pow2_pos((1 - j) as nat);
            assert(n * pow2((1 - j) as nat) >= n) by (nonlinear_arith)
                requires
                    pow2((1 - j) as nat) >= 1,
            ;
        }
        lemma_rounded_range(n, 2 * d, k + 1, j - 1);
    } else {
        if j >= 1 {
            lemma_pow2_mono(1, j as nat);
            assert(0x10_0000_0000_0000 * d * pow2(j as nat) >= 0x20_0000_0000_0000 * d)
                by (nonlinear_arith)
                requires
                    pow2(j as nat) >= 2,
            ;
        }
        lemma_quotient_bits(n, d);
    }
}

proof fn lemma_quotient_bits(n: nat, d: nat)
    requires
        d > 0,
        0x10_0000_0000_0000 * d <= n < 0x20_0000_0000_0000 * d,
    ensures
        0x10_0000_0000_0000 <= n / d < 0x20_0000_0000_0000,
{
    assert(0x10_0000_0000_0000 <= n / d < 0x20_0000_0000_0000) by (nonlinear_arith)
        requires
            d > 0,
            0x10_0000_0000_0000 * d <= n < 0x20_0000_0000_0000 * d,
    ;
}

/// A rounded quotient is at most half a unit away.
proof fn lemma_nearest_even_error(n: nat, d: nat)
    requires
        d > 0,
    ensures
        2 * (nearest_even(n, d) * d) <= 2 * n + d,
        2 * n <= 2 * (nearest_even(n, d) * d) + d,
{
    let q = n / d;
    let r = n % d;
    vstd::arithmetic::div_mod::lemma_fundamental_div_mod(n as int, d as int);
    assert(n == q * d + r) by (nonlinear_arith)
        requires
            n == d * q + r,
    ;
    assert((q + 1) * d == q * d + d) by (nonlinear_arith);
    vstd::arithmetic::div_mod::lemma_mod_bound(n as int, d as int);
}

/// Rounding changes a number by at most one part in `2^53`.
proof fn lemma_rounded_error(n: nat, d: nat, k: int)
    requires
        n > 0,
        d > 0,
        k >= -395,
        rounded(n, d, k).e >= -390,
    ensures
        scaled(rounded(n, d, k)) * d * 0x20_0000_0000_0000 <= n * pow2((k + 400) as nat)
            * 0x20_0000_0000_0001,
        n * pow2((k + 400) as nat) * 0x1f_ffff_ffff_ffff <= scaled(rounded(n, d, k)) * d
            * 0x20_0000_0000_0000,
    decreases
            (if n < 0x10_0000_0000_0000 * d {
                0x10_0000_0000_0000 * d - n + 1
            } else if n >= 0x20_0000_0000_0000 * d {
                n - 0x20_0000_0000_0000 * d + 1
            } else {
                0
            }),
{
    let r = rounded(n, d, k);
    let u = pow2((k + 400) as nat);
    if n < 0x10_0000_0000_0000 * d {
        lemma_rounded_exponent_falls(2 * n, d, k - 1);
        lemma_pow2_unfold((k + 400) as nat);
        let v = pow2((k - 1 + 400) as nat);
        assert(2 * n * v == n * u) by (nonlinear_arith)
            requires
                u == 2 * v,
        ;
        lemma_rounded_error(2 * n, d, k - 1);
    } else if n >= 0x20_0000_0000_0000 * d {
        lemma_pow2_unfold((k + 1 + 400) as nat);
        let v = pow2((k + 1 + 400) as nat);
        lemma_rounded_error(n, 2 * d, k + 1);
        let s = scaled(r);
        assert(s * (2 * d) * 0x20_0000_0000_0000 == 2 * (s * d * 0x20_0000_0000_0000))
            by (nonlinear_arith);
        assert(n * v * 0x20_0000_0000_0001 == 2 * (n * u * 0x20_0000_0000_0001))
            by (nonlinear_arith)
            requires
                v == 2 * u,
        ;
        assert(n * v * 0x1f_ffff_ffff_ffff == 2 * (n * u * 0x1f_ffff_ffff_ffff))
            by (nonlinear_arith)
            requires
                v == 2 * u,
        ;
    } else {
        let q = nearest_even(n, d);
        lemma_nearest_even_error(n, d);
        assert(scaled(r) == q * u) by {
            if q == 0x20_0000_0000_0000 {
                lemma_pow2_unfold((k + 1 + 400) as nat);
                assert(0x10_0000_0000_0000 * (2 * u) == 0x20_0000_0000_0000 * u);
            }
        }
        assert(q * u * d == (q * d) * u) by (nonlinear_arith);
        let qd = q * d;
        assert(qd * 0x20_0000_0000_0000 <= n * 0x20_0000_0000_0001);
        assert(n * 0x1f_ffff_ffff_ffff <= qd * 0x20_0000_0000_0000);
        assert(qd * u * 0x20_0000_0000_0000 <= n * u * 0x20_0000_0000_0001) by (nonlinear_arith)
            requires
                qd * 0x20_0000_0000_0000 <= n * 0x20_0000_0000_0001,
        ;
        assert(n * u * 0x1f_ffff_ffff_ffff <= qd * u * 0x20_0000_0000_0000) by (nonlinear_arith)
            requires
                n * 0x1f_ffff_ffff_ffff <= qd * 0x20_0000_0000_0000,
        ;
    }
}

/// A fraction below `2^53` keeps or lowers the exponent, but for a carry.
proof fn lemma_rounded_exponent_falls(n: nat, d: nat, k: int)
    requires
        n > 0,
        d > 0,
        n < 0x20_0000_0000_0000 * d,
    ensures
        rounded(n, d, k).e <= k + 1,
    decreases 0x20_0000_0000_0000 * d - n,
{
    if n < 0x10_0000_0000_0000 * d {
        lemma_rounded_exponent_falls(2 * n, d, k - 1);
    }
}

/// A rounded number has no larger an exponent than the fraction's size tells.
proof fn lemma_rounded_ceiling(n: nat, d: nat, k: int, j: nat)
    requires
        n > 0,
        d > 0,
        n < 0x20_0000_0000_0000 * d * pow2(j),
    ensures
        rounded(n, d, k).e <= k + j + 1,
    decreases j,
{
    if n < 0x20_0000_0000_0000 * d {
        lemma_rounded_exponent_falls(n, d, k);
    } else if j == 0 {
        vstd::arithmetic::power2::lemma2_to64();
        assert(0x20_0000_0000_0000 * d * pow2(0) == 0x20_0000_0000_0000 * d) by (nonlinear_arith)
            requires
                pow2(0) == 1,
        ;
    } else {
        lemma_pow2_unfold(j);
        assert(0x20_0000_0000_0000 * (2 * d) * pow2((j - 1) as nat) == 0x20_0000_0000_0000 * d
            * pow2(j)) by (nonlinear_arith)
            requires
                pow2(j) == 2 * pow2((j - 1) as nat),
        ;
        lemma_rounded_ceiling(n, 2 * d, k + 1, (j - 1) as nat);
    }
}

/// A whole number of at most 53 bits is kept as it is.
proof fn lemma_rounded_exact(n: nat, k: int)
    requires
        0 < n < 0x20_0000_0000_0000,
        k >= -395,
        rounded(n, 1, k).e >= -390,
    ensures
        scaled(rounded(n, 1, k)) == n * pow2((k + 400) as nat),
    decreases 0x20_0000_0000_0000 - n,
{
    if n < 0x10_0000_0000_0000 {
        lemma_rounded_exponent_falls(2 * n, 1, k - 1);
        lemma_rounded_exact(2 * n, k - 1);
        lemma_pow2_unfold((k + 400) as nat);
        let v = pow2((k - 1 + 400) as nat);
        assert(2 * n * v == n * (2 * v)) by (nonlinear_arith);
    } else {
        assert(nearest_even(n, 1) == n);
    }
}

/// What holds of a whole number taken into double precision.
proof fn lemma_of_nat(n: nat)
    requires
        0 < n <= u64::MAX,
    ensures
        ({
            let x = Dyadic::of_nat(n);
            &&& -52 <= x.e <= 12
            &&& 0x10_0000_0000_0000 <= x.m < 0x20_0000_0000_0000
            &&& scaled(x) * 0x20_0000_0000_0000 <= n * pow2(400) * 0x20_0000_0000_0001
            &&& n * pow2(400) * 0x1f_ffff_ffff_ffff <= scaled(x) * 0x20_0000_0000_0000
            &&& n < 0x20_0000_0000_0000 ==> scaled(x) == n * pow2(400)
        }),
{
    vstd::arithmetic::power2::lemma2_to64();
    vstd::arithmetic::power2::lemma2_to64_rest();
    assert(n * pow2(52) >= 0x10_0000_0000_0000) by (nonlinear_arith)
        requires
            n >= 1,
            pow2(52) == 0x10_0000_0000_0000,
    ;
    lemma_rounded_range(n, 1, 0, -52);
    lemma_rounded_ceiling(n, 1, 0, 11);
    lemma_rounded_error(n, 1, 0);
    if n < 0x20_0000_0000_0000 {
        lemma_rounded_exact(n, 0);
    }
}

/// The part of `whole` that goes to a holder of `part` out of `total`, in double precision.
pub open spec fn share(whole: nat, part: nat, total: nat) -> Dyadic {
    Dyadic::of_nat(whole).times(Dyadic::of_nat(part).over(Dyadic::of_nat(total)))
}

/// A share is `whole * part / total` to within one part in `2^50`.
pub proof fn lemma_share(whole: nat, part: nat, total: nat)
    requires
        whole <= u32::MAX,
        0 < part <= total <= u64::MAX,
    ensures
        ({
            let x = share(whole, part, total);
            &&& -120 <= x.e <= 200
            &&& x.m < 0x20_0000_0000_0000
            &&& scaled(x) * total * 0x4_0000_0000_0000 <= whole * part * pow2(400)
                * 0x4_0000_0000_0001
            &&& whole * part * pow2(400) * 0x3_ffff_ffff_ffff <= scaled(x) * total
                * 0x4_0000_0000_0000
        }),
{
    let p = Dyadic::of_nat(part);
    let t = Dyadic::of_nat(total);
    let ratio = p.over(t);
    let x = share(whole, part, total);
    let unit = pow2(400);
    lemma_of_nat(part);
    lemma_of_nat(total);
    if whole == 0 {
        assert(Dyadic::of_nat(0) == Dyadic { m: 0, e: 0 });
        assert(0 * ratio.m == 0);
        assert(x == Dyadic { m: 0, e: 0 });
        assert(scaled(x) == 0) by (nonlinear_arith)
            requires
                scaled(x) == 0 * unit,
        ;
        assert(0 * part * unit * 0x3_ffff_ffff_ffff == 0) by (nonlinear_arith);
        assert(0 * part * unit * 0x4_0000_0000_0001 == 0) by (nonlinear_arith);
        assert(scaled(x) * total * 0x4_0000_0000_0000 == 0) by (nonlinear_arith)
            requires
                scaled(x) == 0,
        ;
    } else {
        let w = Dyadic::of_nat(whole);
        lemma_of_nat(whole);
        vstd::arithmetic::power2::lemma2_to64();
        vstd::arithmetic::power2::lemma2_to64_rest();
        assert(p.m * pow2(53) >= 0x10_0000_0000_0000 * t.m) by (nonlinear_arith)
            requires
                p.m >= 0x10_0000_0000_0000,
                t.m < 0x20_0000_0000_0000,
                pow2(53) == 0x20_0000_0000_0000,
        ;
        lemma_rounded_range(p.m, t.m, p.e - t.e, -53);
        lemma_rounded_ceiling(p.m, t.m, p.e - t.e, 1);
        lemma_rounded_error(p.m, t.m, p.e - t.e);
        let n = w.m * ratio.m;
        assert(n >= 0x10_0000_0000_0000 * 0x10_0000_0000_0000) by (nonlinear_arith)
            requires
                n == w.m * ratio.m,
                w.m >= 0x10_0000_0000_0000,
                ratio.m >= 0x10_0000_0000_0000,
        ;
        assert(n < 0x20_0000_0000_0000 * 0x20_0000_0000_0000) by (nonlinear_arith)
            requires
                n == w.m * ratio.m,
                w.m < 0x20_0000_0000_0000,
                ratio.m < 0x20_0000_0000_0000,
        ;
        lemma_rounded_range(n, 1, w.e + ratio.e, 52);
        lemma_rounded_ceiling(n, 1, w.e + ratio.e, 53);
        lemma_rounded_error(n, 1, w.e + ratio.e);
        lemma_share_steps(w, p, t, ratio, x, whole, part, total);
    }
}

/// Puts the three roundings of a share together.
proof fn lemma_share_steps(
    w: Dyadic,
    p: Dyadic,
    t: Dyadic,
    ratio: Dyadic,
    x: Dyadic,
    whole: nat,
    part: nat,
    total: nat,
)
    requires
        -60 <= w.e <= 12,
        -60 <= p.e <= 12,
        -60 <= t.e <= 12,
        -130 <= ratio.e <= 100,
        -190 <= x.e,
        total > 0,
        scaled(w) == whole * pow2(400),
        scaled(p) * 0x20_0000_0000_0000 <= part * pow2(400) * 0x20_0000_0000_0001,
        part * pow2(400) * 0x1f_ffff_ffff_ffff <= scaled(p) * 0x20_0000_0000_0000,
        scaled(t) * 0x20_0000_0000_0000 <= total * pow2(400) * 0x20_0000_0000_0001,
        total * pow2(400) * 0x1f_ffff_ffff_ffff <= scaled(t) * 0x20_0000_0000_0000,
        scaled(ratio) * t.m * 0x20_0000_0000_0000 <= p.m * pow2((p.e - t.e + 400) as nat)
            * 0x20_0000_0000_0001,
        p.m * pow2((p.e - t.e + 400) as nat) * 0x1f_ffff_ffff_ffff <= scaled(ratio) * t.m
            * 0x20_0000_0000_0000,
        scaled(x) * 1 * 0x20_0000_0000_0000 <= (w.m * ratio.m) * pow2(
            (w.e + ratio.e + 400) as nat,
        ) * 0x20_0000_0000_0001,
        (w.m * ratio.m) * pow2((w.e + ratio.e + 400) as nat) * 0x1f_ffff_ffff_ffff <= scaled(x)
            * 1 * 0x20_0000_0000_0000,
    ensures
        scaled(x) * total * 0x4_0000_0000_0000 <= whole * part * pow2(400) * 0x4_0000_0000_0001,
        whole * part * pow2(400) * 0x3_ffff_ffff_ffff <= scaled(x) * total * 0x4_0000_0000_0000,
{
    let unit = pow2(400);
    let hi: nat = 0x20_0000_0000_0001;
    let lo: nat = 0x1f_ffff_ffff_ffff;
    let mid: nat = 0x20_0000_0000_0000;
    lemma_pow2_pos(400);
    let sw = scaled(w);
    let sp = scaled(p);
    let st = scaled(t);
    let sr = scaled(ratio);
    let sx = scaled(x);
    // the quotient, with the exponent of its divisor put back
    let pt = pow2((t.e + 400) as nat);
    lemma_pow2_pos((t.e + 400) as nat);
    lemma_pow2_adds((p.e - t.e + 400) as nat, (t.e + 400) as nat);
    lemma_pow2_adds((p.e + 400) as nat, 400);
    let pq = pow2((p.e - t.e + 400) as nat);
    assert(p.m * pq * pt == sp * unit) by (nonlinear_arith)
        requires
            sp == p.m * pow2((p.e + 400) as nat),
            pq * pt == pow2((p.e + 400) as nat) * unit,
    ;
    assert(sr * st * mid <= sp * unit * hi) by (nonlinear_arith)
        requires
            sr * t.m * mid <= p.m * pq * hi,
            st == t.m * pt,
            p.m * pq * pt == sp * unit,
            pt > 0,
    ;
    assert(sp * unit * lo <= sr * st * mid) by (nonlinear_arith)
        requires
            p.m * pq * lo <= sr * t.m * mid,
            st == t.m * pt,
            p.m * pq * pt == sp * unit,
            pt > 0,
    ;
    // the product
    lemma_pow2_adds((w.e + ratio.e + 400) as nat, 400);
    lemma_pow2_adds((w.e + 400) as nat, (ratio.e + 400) as nat);
    let pwr = pow2((w.e + ratio.e + 400) as nat);
    assert(w.m * ratio.m * pwr * unit == sw * sr) by (nonlinear_arith)
        requires
            sw == w.m * pow2((w.e + 400) as nat),
            sr == ratio.m * pow2((ratio.e + 400) as nat),
            pwr * unit == pow2((w.e + 400) as nat) * pow2((ratio.e + 400) as nat),
    ;
    assert(sx * unit * mid <= sw * sr * hi) by (nonlinear_arith)
        requires
            sx * 1 * mid <= w.m * ratio.m * pwr * hi,
            w.m * ratio.m * pwr * unit == sw * sr,
            unit > 0,
    ;
    assert(sw * sr * lo <= sx * unit * mid) by (nonlinear_arith)
        requires
            w.m * ratio.m * pwr * lo <= sx * 1 * mid,
            w.m * ratio.m * pwr * unit == sw * sr,
            unit > 0,
    ;
    // sw is `whole` exactly
    assert(sx * mid <= whole * sr * hi) by (nonlinear_arith)
        requires
            sx * unit * mid <= sw * sr * hi,
            sw == whole * unit,
            unit > 0,
    ;
    assert(whole * sr * lo <= sx * mid) by (nonlinear_arith)
        requires
            sw * sr * lo <= sx * unit * mid,
            sw == whole * unit,
            unit > 0,
    ;
    // upper side
    lemma_times(sx * mid, whole * sr * hi, st * mid);
    lemma_times(sr * st * mid, sp * unit * hi, whole * hi);
    assert(sx * st * mid * mid == sx * mid * (st * mid)) by (nonlinear_arith);
    assert(whole * sr * hi * (st * mid) == sr * st * mid * (whole * hi)) by (nonlinear_arith);
    assert(sp * unit * hi * (whole * hi) == whole * sp * unit * hi * hi) by (nonlinear_arith);
    assert(sx * st * mid * mid <= whole * sp * unit * hi * hi);
    lemma_times(total * unit * lo, st * mid, sx * mid * mid);
    lemma_times(sx * st * mid * mid, whole * sp * unit * hi * hi, mid);
    lemma_times(sp * mid, part * unit * hi, whole * unit * hi * hi);
    assert(total * unit * lo * (sx * mid * mid) == unit * (sx * total * lo * mid * mid))
        by (nonlinear_arith);
    assert(st * mid * (sx * mid * mid) == sx * st * mid * mid * mid) by (nonlinear_arith);
    assert(whole * sp * unit * hi * hi * mid == sp * mid * (whole * unit * hi * hi))
        by (nonlinear_arith);
    assert(part * unit * hi * (whole * unit * hi * hi) == unit * (whole * part * unit * hi * hi
        * hi)) by (nonlinear_arith);
    assert(sx * total * lo * mid * mid <= whole * part * unit * hi * hi * hi) by {
        vstd::arithmetic::mul::lemma_mul_inequality_converse(
            (sx * total * lo * mid * mid) as int,
            (whole * part * unit * hi * hi * hi) as int,
            unit as int,
        );
        assert(unit * (sx * total * lo * mid * mid) == (sx * total * lo * mid * mid) * unit)
            by (nonlinear_arith);
        assert(unit * (whole * part * unit * hi * hi * hi) == (whole * part * unit * hi * hi * hi)
            * unit) by (nonlinear_arith);
    }
    assert(sx * total * lo * mid * mid == sx * total * (lo * mid * mid)) by (nonlinear_arith);
    assert(whole * part * unit * hi * hi * hi == whole * part * unit * (hi * hi * hi))
        by (nonlinear_arith);
    lemma_ratio_step(sx * total, whole * part * unit, lo * mid * mid, hi * hi * hi, 0x4_0000_0000_0000, 0x4_0000_0000_0001);
    // lower side
    lemma_times(whole * sr * lo, sx * mid, st * mid);
    lemma_times(sp * unit * lo, sr * st * mid, whole * lo);
    assert(whole * sr * lo * (st * mid) == sr * st * mid * (whole * lo)) by (nonlinear_arith);
    assert(sp * unit * lo * (whole * lo) == whole * sp * unit * lo * lo) by (nonlinear_arith);
    assert(whole * sp * unit * lo * lo <= sx * st * mid * mid);
    lemma_times(st * mid, total * unit * hi, sx * mid * mid);
    lemma_times(whole * sp * unit * lo * lo, sx * st * mid * mid, mid);
    lemma_times(part * unit * lo, sp * mid, whole * unit * lo * lo);
    assert(total * unit * hi * (sx * mid * mid) == unit * (sx * total * hi * mid * mid))
        by (nonlinear_arith);
    assert(whole * sp * unit * lo * lo * mid == sp * mid * (whole * unit * lo * lo))
        by (nonlinear_arith);
    assert(part * unit * lo * (whole * unit * lo * lo) == unit * (whole * part * unit * lo * lo
        * lo)) by (nonlinear_arith);
    assert(whole * part * unit * lo * lo * lo <= sx * total * hi * mid * mid) by {
        vstd::arithmetic::mul::lemma_mul_inequality_converse(
            (whole * part * unit * lo * lo * lo) as int,
            (sx * total * hi * mid * mid) as int,
            unit as int,
        );
        assert(unit * (sx * total * hi * mid * mid) == (sx * total * hi * mid * mid) * unit)
            by (nonlinear_arith);
        assert(unit * (whole * part * unit * lo * lo * lo) == (whole * part * unit * lo * lo * lo)
            * unit) by (nonlinear_arith);
    }
    assert(sx * total * hi * mid * mid == sx * total * (hi * mid * mid)) by (nonlinear_arith);
    assert(whole * part * unit * lo * lo * lo == whole * part * unit * (lo * lo * lo))
        by (nonlinear_arith);
    lemma_ratio_step(whole * part * unit, sx * total, lo * lo * lo, hi * mid * mid, 0x3_ffff_ffff_ffff, 0x4_0000_0000_0000);
}

proof fn lemma_times(a: nat, b: nat, c: nat)
    requires
        a <= b,
    ensures
        a * c <= b * c,
{
    assert(a * c <= b * c) by (nonlinear_arith)
        requires
            a <= b,
    ;
}

/// From `x * l <= y * h` and `h / l <= f / e`: `x * e <= y * f`.
proof fn lemma_ratio_step(x: nat, y: nat, l: nat, h: nat, e: nat, f: nat)
    requires
        x * l <= y * h,
        h * e <= l * f,
        l > 0,
    ensures
        x * e <= y * f,
{
    lemma_times(x * l, y * h, e);
    lemma_times(h * e, l * f, y);
    assert(x * l * e == l * (x * e)) by (nonlinear_arith);
    assert(y * h * e == h * e * y) by (nonlinear_arith);
    assert(l * f * y == l * (y * f)) by (nonlinear_arith);
    assert(x * e <= y * f) by (nonlinear_arith)
        requires
            l * (x * e) <= l * (y * f),
            l > 0,
    ;
}

/// The same fraction with 53 bits before the point.
proof fn lemma_normal_form(n: nat, d: nat, k: int) -> (res: (nat, nat, int))
    requires
        n > 0,
        d > 0,
        k >= -395,
        rounded(n, d, k).e >= -390,
    ensures
        ({
            let (a, b, c) = res;
            &&& b > 0
            &&& c >= -395
            &&& 0x10_0000_0000_0000 * b <= a < 0x20_0000_0000_0000 * b
            &&& scaled(rounded(n, d, k)) == nearest_even(a, b) * pow2((c + 400) as nat)
            &&& a * pow2((c + 400) as nat) * d == n * pow2((k + 400) as nat) * b
        }),
    decreases
            (if n < 0x10_0000_0000_0000 * d {
                0x10_0000_0000_0000 * d - n + 1
            } else if n >= 0x20_0000_0000_0000 * d {
                n - 0x20_0000_0000_0000 * d + 1
            } else {
                0
            }),
{
    let u = pow2((k + 400) as nat);
    if n < 0x10_0000_0000_0000 * d {
        lemma_rounded_exponent_falls(2 * n, d, k - 1);
        let (a, b, c) = lemma_normal_form(2 * n, d, k - 1);
        lemma_pow2_unfold((k + 400) as nat);
        let v = pow2((k - 1 + 400) as nat);
        assert(2 * n * v * b == n * u * b) by (nonlinear_arith)
            requires
                u == 2 * v,
        ;
        (a, b, c)
    } else if n >= 0x20_0000_0000_0000 * d {
        let (a, b, c) = lemma_normal_form(n, 2 * d, k + 1);
        lemma_pow2_unfold((k + 1 + 400) as nat);
        let v = pow2((k + 1 + 400) as nat);
        let w = pow2((c + 400) as nat);
        assert(a * w * d == n * u * b) by (nonlinear_arith)
            requires
                v == 2 * u,
                a * w * (2 * d) == n * v * b,
        ;
        (a, b, c)
    } else {
        if nearest_even(n, d) == 0x20_0000_0000_0000 {
            lemma_pow2_unfold((k + 1 + 400) as nat);
            assert(0x10_0000_0000_0000 * (2 * u) == 0x20_0000_0000_0000 * u);
        }
        (n, d, k)
    }
}

/// Rounding to the nearest keeps the order of two fractions.
proof fn lemma_nearest_even_monotone(a: nat, b: nat, c: nat, d: nat)
    requires
        b > 0,
        d > 0,
        a * d <= c * b,
    ensures
        nearest_even(a, b) <= nearest_even(c, d),
{
    let q = a / b;
    let r = a % b;
    let p = c / d;
    let s = c % d;
    vstd::arithmetic::div_mod::lemma_fundamental_div_mod(a as int, b as int);
    vstd::arithmetic::div_mod::lemma_fundamental_div_mod(c as int, d as int);
    vstd::arithmetic::div_mod::lemma_mod_bound(a as int, b as int);
    vstd::arithmetic::div_mod::lemma_mod_bound(c as int, d as int);
    assert(a * d == q * (b * d) + r * d) by (nonlinear_arith)
        requires
            a == b * q + r,
    ;
    assert(c * b == p * (b * d) + s * b) by (nonlinear_arith)
        requires
            c == d * p + s,
    ;
    assert(s * b < b * d) by (nonlinear_arith)
        requires
            s < d,
            b > 0,
    ;
    let bd = b * d;
    assert(q <= p) by (nonlinear_arith)
        requires
            q * bd + r * d <= p * bd + s * b,
            s * b < bd,
            r * d >= 0,
    ;
    if q == p {
        assert(r * d <= s * b);
        assert(2 * r > b ==> 2 * s > d) by (nonlinear_arith)
            requires
                r * d <= s * b,
                b > 0,
                d > 0,
        ;
        assert(2 * r == b ==> 2 * s >= d) by (nonlinear_arith)
            requires
                r * d <= s * b,
                b > 0,
                d > 0,
        ;
    }
}

/// Rounding keeps the order of two numbers.
proof fn lemma_rounded_monotone(n: nat, k: int, m: nat, j: int, d: nat)
    requires
        n > 0,
        m > 0,
        d > 0,
        k >= -395,
        j >= -395,
        rounded(n, d, k).e >= -390,
        rounded(m, d, j).e >= -390,
        n * pow2((k + 400) as nat) <= m * pow2((j + 400) as nat),
    ensures
        scaled(rounded(n, d, k)) <= scaled(rounded(m, d, j)),
{
    let (a1, b1, c1) = lemma_normal_form(n, d, k);
    let (a2, b2, c2) = lemma_normal_form(m, d, j);
    let p1 = pow2((c1 + 400) as nat);
    let p2 = pow2((c2 + 400) as nat);
    let v1 = n * pow2((k + 400) as nat);
    let v2 = m * pow2((j + 400) as nat);
    lemma_pow2_pos((c1 + 400) as nat);
    lemma_pow2_pos((c2 + 400) as nat);
    // a1 * p1 / b1 <= a2 * p2 / b2
    assert(a1 * p1 * b2 <= a2 * p2 * b1) by {
        lemma_times(v1, v2, b1 * b2);
        assert(v1 * (b1 * b2) == (a1 * p1 * b2) * d) by (nonlinear_arith)
            requires
                a1 * p1 * d == v1 * b1,
        ;
        assert(v2 * (b1 * b2) == (a2 * p2 * b1) * d) by (nonlinear_arith)
            requires
                a2 * p2 * d == v2 * b2,
        ;
        assert(a1 * p1 * b2 <= a2 * p2 * b1) by (nonlinear_arith)
            requires
                (a1 * p1 * b2) * d <= (a2 * p2 * b1) * d,
                d > 0,
        ;
    }
    let q1 = nearest_even(a1, b1);
    let q2 = nearest_even(a2, b2);
    if c1 == c2 {
        assert(a1 * b2 <= a2 * b1) by (nonlinear_arith)
            requires
                a1 * p1 * b2 <= a2 * p1 * b1,
                p1 > 0,
        ;
        lemma_nearest_even_monotone(a1, b1, a2, b2);
        lemma_times(q1, q2, p1);
    } else if c1 < c2 {
        lemma_quotient_bits(a1, b1);
        lemma_quotient_bits(a2, b2);
        lemma_pow2_unfold((c1 + 1 + 400) as nat);
        lemma_pow2_mono((c1 + 1 + 400) as nat, (c2 + 400) as nat);
        assert(q1 * p1 <= q2 * p2) by (nonlinear_arith)
            requires
                q1 <= 0x20_0000_0000_0000,
                q2 >= 0x10_0000_0000_0000,
                2 * p1 <= p2,
        ;
    } else {
        lemma_pow2_unfold((c2 + 1 + 400) as nat);
        lemma_pow2_mono((c2 + 1 + 400) as nat, (c1 + 400) as nat);
        assert(a1 * p1 * b2 >= 0x10_0000_0000_0000 * b1 * (2 * p2) * b2) by (nonlinear_arith)
            requires
                a1 >= 0x10_0000_0000_0000 * b1,
                p1 >= 2 * p2,
        ;
        assert(a2 * p2 * b1 < 0x20_0000_0000_0000 * b2 * p2 * b1) by (nonlinear_arith)
            requires
                a2 < 0x20_0000_0000_0000 * b2,
                p2 > 0,
                b1 > 0,
        ;
        assert(0x10_0000_0000_0000 * b1 * (2 * p2) * b2 == 0x20_0000_0000_0000 * b2 * p2 * b1)
            by (nonlinear_arith);
        assert(false);
    }
}

/// A number is its whole part and its fraction.
proof fn lemma_floor_and_fraction(x: Dyadic)
    requires
        -120 <= x.e,
    ensures
        scaled(x) == x.floor() * pow2(400) + x.fraction() * pow2(280),
        x.fraction() < pow2(120),
{
    lemma_pow2_pos(120);
    if x.e >= 0 {
        lemma_pow2_adds(x.e as nat, 400);
        let u = pow2(400);
        assert(x.m * (pow2(x.e as nat) * u) == x.m * pow2(x.e as nat) * u) by (nonlinear_arith);
        assert(0 * pow2(280) == 0);
    } else {
        let s = (-x.e) as nat;
        let unit = pow2(s);
        lemma_pow2_pos(s);
        let q = x.m / unit;
        let r = x.m % unit;
        vstd::arithmetic::div_mod::lemma_fundamental_div_mod(x.m as int, unit as int);
        vstd::arithmetic::div_mod::lemma_mod_bound(x.m as int, unit as int);
        lemma_pow2_adds(s, (400 - s) as nat);
        lemma_pow2_adds((120 - s) as nat, 280);
        lemma_pow2_adds(s, (120 - s) as nat);
        let rest = pow2((400 - s) as nat);
        let low = pow2((120 - s) as nat);
        lemma_pow2_pos((120 - s) as nat);
        assert(x.m * rest == q * (unit * rest) + r * rest) by (nonlinear_arith)
            requires
                x.m == unit * q + r,
        ;
        assert(r * (low * pow2(280)) == r * low * pow2(280)) by (nonlinear_arith);
        assert(r * low < unit * low) by (nonlinear_arith)
            requires
                r < unit,
                low > 0,
        ;
    }
}

/// The whole part of a share is `whole * part / total` to within one part in `2^50`, rounded down:
/// above what remains a fraction, and no less than what comes out whole.
pub proof fn lemma_share_floor(whole: nat, part: nat, total: nat)
    requires
        whole <= u32::MAX,
        0 < part <= total <= u64::MAX,
    ensures
        ({
            let x = share(whole, part, total);
            let f = x.floor();
            &&& f * total * 0x4_0000_0000_0000 <= whole * part * 0x4_0000_0000_0001
            &&& whole * part * 0x3_ffff_ffff_ffff < (f + 1) * total * 0x4_0000_0000_0000
            &&& x.fraction() > 0 ==> f * total * 0x4_0000_0000_0000 < whole * part
                * 0x4_0000_0000_0001
            &&& x.fraction() == 0 ==> whole * part * 0x3_ffff_ffff_ffff <= f * total
                * 0x4_0000_0000_0000
        }),
{
    let x = share(whole, part, total);
    let f = x.floor();
    let unit = pow2(400);
    lemma_share(whole, part, total);
    lemma_floor_and_fraction(x);
    lemma_pow2_pos(400);
    lemma_pow2_pos(280);
    lemma_pow2_adds(120, 280);
    assert(x.fraction() * pow2(280) < unit) by (nonlinear_arith)
        requires
            x.fraction() < pow2(120),
            pow2(120) * pow2(280) == unit,
            pow2(280) > 0,
    ;
    assert((f + 1) * unit == f * unit + unit) by (nonlinear_arith);
    let s = scaled(x);
    assert(f * total * 0x4_0000_0000_0000 <= whole * part * 0x4_0000_0000_0001) by {
        lemma_times(f * unit, s, total * 0x4_0000_0000_0000);
        assert(s * (total * 0x4_0000_0000_0000) == s * total * 0x4_0000_0000_0000)
            by (nonlinear_arith);
        assert(f * unit * (total * 0x4_0000_0000_0000) == (f * total * 0x4_0000_0000_0000) * unit)
            by (nonlinear_arith);
        assert(whole * part * unit * 0x4_0000_0000_0001 == (whole * part * 0x4_0000_0000_0001)
            * unit) by (nonlinear_arith);
        vstd::arithmetic::mul::lemma_mul_inequality_converse(
            (f * total * 0x4_0000_0000_0000) as int,
            (whole * part * 0x4_0000_0000_0001) as int,
            unit as int,
        );
    }
    assert(whole * part * 0x3_ffff_ffff_ffff < (f + 1) * total * 0x4_0000_0000_0000) by {
        let g = (f + 1) * unit;
        assert(s * (total * 0x4_0000_0000_0000) < g * (total * 0x4_0000_0000_0000))
            by (nonlinear_arith)
            requires
                s < g,
                total > 0,
        ;
        assert(s * (total * 0x4_0000_0000_0000) == s * total * 0x4_0000_0000_0000)
            by (nonlinear_arith);
        assert(g * (total * 0x4_0000_0000_0000) == ((f + 1) * total * 0x4_0000_0000_0000) * unit)
            by (nonlinear_arith)
            requires
                g == (f + 1) * unit,
        ;
        assert(whole * part * unit * 0x3_ffff_ffff_ffff == (whole * part * 0x3_ffff_ffff_ffff)
            * unit) by (nonlinear_arith);
        vstd::arithmetic::mul::lemma_mul_strict_inequality_converse(
            (whole * part * 0x3_ffff_ffff_ffff) as int,
            ((f + 1) * total * 0x4_0000_0000_0000) as int,
            unit as int,
        );
    }
    let shown = f * total * 0x4_0000_0000_0000;
    assert(f * unit * (total * 0x4_0000_0000_0000) == shown * unit) by (nonlinear_arith)
        requires
            shown == f * total * 0x4_0000_0000_0000,
    ;
    assert(s * (total * 0x4_0000_0000_0000) == s * total * 0x4_0000_0000_0000) by (nonlinear_arith);
    if x.fraction() > 0 {
        assert(x.fraction() * pow2(280) > 0) by (nonlinear_arith)
            requires
                x.fraction() > 0,
                pow2(280) > 0,
        ;
        assert(f * unit * (total * 0x4_0000_0000_0000) < s * (total * 0x4_0000_0000_0000))
            by (nonlinear_arith)
            requires
                f * unit < s,
                total > 0,
        ;
        assert(whole * part * unit * 0x4_0000_0000_0001 == (whole * part * 0x4_0000_0000_0001)
            * unit) by (nonlinear_arith);
        vstd::arithmetic::mul::lemma_mul_strict_inequality_converse(
            shown as int,
            (whole * part * 0x4_0000_0000_0001) as int,
            unit as int,
        );
    } else {
        assert(0 * pow2(280) == 0);
        assert(whole * part * unit * 0x3_ffff_ffff_ffff == (whole * part * 0x3_ffff_ffff_ffff)
            * unit) by (nonlinear_arith);
        vstd::arithmetic::mul::lemma_mul_inequality_converse(
            (whole * part * 0x3_ffff_ffff_ffff) as int,
            shown as int,
            unit as int,
        );
    }
}

/// A larger part gets no smaller a share.
pub proof fn lemma_share_monotone(whole: nat, part: nat, other: nat, total: nat)
    requires
        whole <= u32::MAX,
        0 < part <= other <= total <= u64::MAX,
    ensures
        ({
            let x = share(whole, part, total);
            let y = share(whole, other, total);
            &&& x.floor() <= y.floor()
            &&& x.floor() == y.floor() ==> x.fraction() <= y.fraction()
        }),
{
    let x = share(whole, part, total);
    let y = share(whole, other, total);
    if whole == 0 {
        let zero = Dyadic::of_nat(0);
        assert(0 * Dyadic::of_nat(part).over(Dyadic::of_nat(total)).m == 0);
        assert(0 * Dyadic::of_nat(other).over(Dyadic::of_nat(total)).m == 0);
    } else {
        let w = Dyadic::of_nat(whole);
        let t = Dyadic::of_nat(total);
        let p1 = Dyadic::of_nat(part);
        let p2 = Dyadic::of_nat(other);
        let r1 = p1.over(t);
        let r2 = p2.over(t);
        lemma_of_nat(whole);
        lemma_of_nat(total);
        lemma_of_nat(part);
        lemma_of_nat(other);
        lemma_times(part, other, pow2(400));
        lemma_rounded_monotone(part, 0, other, 0, 1);
        lemma_ratio_range(p1, t);
        lemma_ratio_range(p2, t);
        // the quotients
        let pt = pow2((t.e + 400) as nat);
        lemma_pow2_pos((t.e + 400) as nat);
        lemma_pow2_adds((p1.e - t.e + 400) as nat, (t.e + 400) as nat);
        lemma_pow2_adds((p2.e - t.e + 400) as nat, (t.e + 400) as nat);
        lemma_pow2_adds((p1.e + 400) as nat, 400);
        lemma_pow2_adds((p2.e + 400) as nat, 400);
        lemma_pow2_pos(400);
        lemma_common_factor(
            p1.m,
            pow2((p1.e - t.e + 400) as nat),
            pow2((p1.e + 400) as nat),
            p2.m,
            pow2((p2.e - t.e + 400) as nat),
            pow2((p2.e + 400) as nat),
            pt,
            pow2(400),
        );
        lemma_rounded_monotone(p1.m, p1.e - t.e, p2.m, p2.e - t.e, t.m);
        // the products
        let n1 = w.m * r1.m;
        let n2 = w.m * r2.m;
        lemma_product_range(w, r1);
        lemma_product_range(w, r2);
        let ww = w.m * pow2((w.e + 400) as nat);
        lemma_pow2_adds((w.e + r1.e + 400) as nat, 400);
        lemma_pow2_adds((w.e + r2.e + 400) as nat, 400);
        lemma_pow2_adds((w.e + 400) as nat, (r1.e + 400) as nat);
        lemma_pow2_adds((w.e + 400) as nat, (r2.e + 400) as nat);
        let u = pow2(400);
        let k1 = pow2((w.e + r1.e + 400) as nat);
        let k2 = pow2((w.e + r2.e + 400) as nat);
        let pw = pow2((w.e + 400) as nat);
        let s1 = scaled(r1);
        let s2 = scaled(r2);
        lemma_times(s1, s2, w.m * pw);
        assert(n1 * k1 * u == s1 * (w.m * pw)) by (nonlinear_arith)
            requires
                n1 == w.m * r1.m,
                s1 == r1.m * pow2((r1.e + 400) as nat),
                k1 * u == pw * pow2((r1.e + 400) as nat),
        ;
        assert(n2 * k2 * u == s2 * (w.m * pw)) by (nonlinear_arith)
            requires
                n2 == w.m * r2.m,
                s2 == r2.m * pow2((r2.e + 400) as nat),
                k2 * u == pw * pow2((r2.e + 400) as nat),
        ;
        assert(n1 * k1 <= n2 * k2) by (nonlinear_arith)
            requires
                n1 * k1 * u <= n2 * k2 * u,
                u > 0,
        ;
        lemma_rounded_monotone(n1, w.e + r1.e, n2, w.e + r2.e, 1);
        // whole parts and fractions
        lemma_share(whole, part, total);
        lemma_share(whole, other, total);
        lemma_floor_and_fraction(x);
        lemma_floor_and_fraction(y);
        lemma_digits_ordered(x.floor(), x.fraction(), y.floor(), y.fraction());
    }
}

/// A quotient of two numbers in double precision.
proof fn lemma_ratio_range(p: Dyadic, t: Dyadic)
    requires
        -52 <= p.e <= 12,
        -52 <= t.e <= 12,
        0x10_0000_0000_0000 <= p.m < 0x20_0000_0000_0000,
        0x10_0000_0000_0000 <= t.m < 0x20_0000_0000_0000,
    ensures
        -117 <= p.over(t).e <= 66,
        0x10_0000_0000_0000 <= p.over(t).m < 0x20_0000_0000_0000,
{
    vstd::arithmetic::power2::lemma2_to64();
    vstd::arithmetic::power2::lemma2_to64_rest();
    assert(p.m * pow2(53) >= 0x10_0000_0000_0000 * t.m) by (nonlinear_arith)
        requires
            p.m >= 0x10_0000_0000_0000,
            t.m < 0x20_0000_0000_0000,
            pow2(53) == 0x20_0000_0000_0000,
    ;
    lemma_rounded_range(p.m, t.m, p.e - t.e, -53);
    lemma_rounded_ceiling(p.m, t.m, p.e - t.e, 1);
}

/// A product of two numbers in double precision.
proof fn lemma_product_range(w: Dyadic, r: Dyadic)
    requires
        -52 <= w.e <= 12,
        -117 <= r.e <= 66,
        0x10_0000_0000_0000 <= w.m < 0x20_0000_0000_0000,
        0x10_0000_0000_0000 <= r.m < 0x20_0000_0000_0000,
    ensures
        w.m * r.m > 0,
        -117 <= w.times(r).e <= 132,
        w.times(r).m < 0x20_0000_0000_0000,
{
    vstd::arithmetic::power2::lemma2_to64();
    vstd::arithmetic::power2::lemma2_to64_rest();
    let n = w.m * r.m;
    assert(0x10_0000_0000_0000 * 0x10_0000_0000_0000 <= n < 0x20_0000_0000_0000
        * 0x20_0000_0000_0000) by (nonlinear_arith)
        requires
            n == w.m * r.m,
            0x10_0000_0000_0000 <= w.m < 0x20_0000_0000_0000,
            0x10_0000_0000_0000 <= r.m < 0x20_0000_0000_0000,
    ;
    lemma_rounded_range(n, 1, w.e + r.e, 52);
    lemma_rounded_ceiling(n, 1, w.e + r.e, 53);
}

/// From `m1 * b1 <= m2 * b2`, with `a1 * t == b1 * u` and `a2 * t == b2 * u`.
proof fn lemma_common_factor(
    m1: nat,
    a1: nat,
    b1: nat,
    m2: nat,
    a2: nat,
    b2: nat,
    t: nat,
    u: nat,
)
    requires
        m1 * b1 <= m2 * b2,
        a1 * t == b1 * u,
        a2 * t == b2 * u,
        t > 0,
    ensures
        m1 * a1 <= m2 * a2,
{
    lemma_times(m1 * b1, m2 * b2, u);
    assert(m1 * b1 * u == m1 * a1 * t) by (nonlinear_arith)
        requires
            a1 * t == b1 * u,
    ;
    assert(m2 * b2 * u == m2 * a2 * t) by (nonlinear_arith)
        requires
            a2 * t == b2 * u,
    ;
    assert(m1 * a1 <= m2 * a2) by (nonlinear_arith)
        requires
            m1 * a1 * t <= m2 * a2 * t,
            t > 0,
    ;
}

/// Two numbers in order have their whole parts, and then their fractions, in order.
proof fn lemma_digits_ordered(f1: nat, g1: nat, f2: nat, g2: nat)
    requires
        g1 < pow2(120),
        g2 < pow2(120),
        f1 * pow2(400) + g1 * pow2(280) <= f2 * pow2(400) + g2 * pow2(280),
    ensures
        f1 <= f2,
        f1 == f2 ==> g1 <= g2,
{
    lemma_pow2_adds(120, 280);
    lemma_pow2_pos(280);
    let u = pow2(400);
    let v = pow2(280);
    assert(g2 * v < u) by (nonlinear_arith)
        requires
            g2 < pow2(120),
            pow2(120) * v == u,
            v > 0,
    ;
    assert(f1 <= f2) by (nonlinear_arith)
        requires
            f1 * u + g1 * v <= f2 * u + g2 * v,
            g2 * v < u,
            g1 * v >= 0,
    ;
    if f1 == f2 {
        assert(g1 <= g2) by (nonlinear_arith)
            requires
                g1 * v <= g2 * v,
                v > 0,
        ;
    }
}

/// What follows the point of a share is less than one.
pub proof fn lemma_share_parts(whole: nat, part: nat, total: nat)
    requires
        whole <= u32::MAX,
        0 < part <= total <= u64::MAX,
    ensures
        share(whole, part, total).fraction() < pow2(120),
        pow2(120) < u128::MAX,
{
    lemma_share(whole, part, total);
    lemma_floor_and_fraction(share(whole, part, total));
    lemma_pow2_120();
}

/// Nothing of the whole goes to a part of size zero.
pub proof fn lemma_share_of_nothing(whole: nat, total: nat)
    ensures
        share(whole, 0, total) == (Dyadic { m: 0, e: 0 }),
        share(whole, 0, total).floor() == 0,
        share(whole, 0, total).fraction() == 0,
{
    let none = Dyadic { m: 0, e: 0 };
    assert(Dyadic::of_nat(0) == none);
    assert(none.over(Dyadic::of_nat(total)) == none);
    assert(Dyadic::of_nat(whole).m * 0 == 0);
    assert(0 * pow2(0) == 0);
}

/// The part of `whole` that falls to `part` out of `total`.
pub fn share_of(whole: u32, part: u64, total: u64) -> (res: Double)
    requires
        total > 0,
        part <= total,
    ensures
        res@ == share(whole as nat, part as nat, total as nat),
        res.mant < 0x20_0000_0000_0000,
        -120 <= res.exp <= 200,
{
    proof {
        if part > 0 {
            lemma_share(whole as nat, part as nat, total as nat);
        } else {
            lemma_share_of_nothing(whole as nat, total as nat);
        }
    }
    let ratio = Double::from_u64(part).over(Double::from_u64(total));
    Double::from_u64(whole as u64).times(ratio)
}

/// What `n` times a factor comes to before and after rounding, both in units of `2^-400`.
proof fn lemma_product(n: nat, f: Dyadic) -> (v: nat)
    requires
        0 < n <= u64::MAX,
        0 < f.m < 0x20_0000_0000_0000,
        -200 <= f.e <= 0,
    ensures
        ({
            let p = Dyadic::of_nat(n);
            let x = p.times(f);
            &&& x.e >= -300
            &&& x.m > 0
            &&& v == p.m * f.m * pow2((p.e + f.e + 400) as nat)
            &&& v * pow2((-f.e) as nat) == scaled(p) * f.m
            &&& scaled(x) * 0x20_0000_0000_0000 <= v * 0x20_0000_0000_0001
            &&& v * 0x1f_ffff_ffff_ffff <= scaled(x) * 0x20_0000_0000_0000
        }),
{
    let p = Dyadic::of_nat(n);
    let x = p.times(f);
    lemma_of_nat(n);
    vstd::arithmetic::power2::lemma2_to64();
    let prod = p.m * f.m;
    let k = p.e + f.e;
    let v = prod * pow2((k + 400) as nat);
    assert(prod >= p.m) by (nonlinear_arith)
        requires
            prod == p.m * f.m,
            f.m >= 1,
    ;
    lemma_rounded_range(prod, 1, k, 0);
    lemma_rounded_error(prod, 1, k);
    lemma_pow2_adds((k + 400) as nat, (-f.e) as nat);
    assert(prod * pow2((k + 400) as nat) * pow2((-f.e) as nat) == p.m * pow2((p.e + 400) as nat)
        * f.m) by (nonlinear_arith)
        requires
            prod == p.m * f.m,
            pow2((k + 400) as nat) * pow2((-f.e) as nat) == pow2((p.e + 400) as nat),
    ;
    v
}

/// A fraction of `n` that is at most the double nearest to 0.95 never comes to more than `n`.
pub proof fn lemma_fraction_within(n: nat, f: Dyadic)
    requires
        n <= u64::MAX,
        f.m < 0x20_0000_0000_0000,
        f.at_most(Dyadic { m: 0x1e_6666_6666_6666, e: -53 }),
    ensures
        Dyadic::of_nat(n).times(f).floor() <= n,
{
    let p = Dyadic::of_nat(n);
    let x = p.times(f);
    vstd::arithmetic::power2::lemma2_to64();
    vstd::arithmetic::power2::lemma2_to64_rest();
    if n == 0 || f.m == 0 {
        assert(p.m * f.m == 0) by (nonlinear_arith)
            requires
                n == 0 ==> p.m == 0,
                n == 0 || f.m == 0,
        ;
        assert(x == Dyadic { m: 0, e: 0 });
        assert(0 * pow2(0) == 0);
    } else if f.e < -200 {
        lemma_of_nat(n);
        lemma_small_product(p, f);
    } else {
        lemma_of_nat(n);
        let limit: nat = 0x1e_6666_6666_6666;
        if f.e > 0 {
            lemma_pow2_mono(53, (f.e + 53) as nat);
            assert(f.m * pow2((f.e + 53) as nat) >= 0x20_0000_0000_0000) by (nonlinear_arith)
                requires
                    f.m >= 1,
                    pow2((f.e + 53) as nat) >= 0x20_0000_0000_0000,
            ;
        }
        let v = lemma_product(n, f);
        let s = scaled(p);
        let down = pow2((-f.e) as nat);
        lemma_pow2_pos((-f.e) as nat);
        assert(v * 0x20_0000_0000_0000 <= s * limit) by {
            if f.e <= -53 {
                let q = pow2((-53 - f.e) as nat);
                lemma_pow2_adds((-53 - f.e) as nat, 53);
                assert(s * f.m <= s * (limit * q)) by (nonlinear_arith)
                    requires
                        f.m <= limit * q,
                ;
                assert(v * 0x20_0000_0000_0000 <= s * limit) by (nonlinear_arith)
                    requires
                        v * down <= s * (limit * q),
                        down == q * 0x20_0000_0000_0000,
                        down > 0,
                ;
            } else {
                let q = pow2((f.e + 53) as nat);
                lemma_pow2_adds((-f.e) as nat, (f.e + 53) as nat);
                assert(s * (f.m * q) <= s * limit) by (nonlinear_arith)
                    requires
                        f.m * q <= limit,
                ;
                assert(v * 0x20_0000_0000_0000 == s * (f.m * q)) by (nonlinear_arith)
                    requires
                        v * down == s * f.m,
                        down * q == 0x20_0000_0000_0000,
                ;
            }
        }
        let unit = pow2(400);
        let r = scaled(x);
        lemma_pow2_pos(400);
        assert(r <= n * unit);
        lemma_floor_below(x);
        lemma_pow2_pos(400);
        assert(x.floor() <= n) by (nonlinear_arith)
            requires
                x.floor() * unit <= n * unit,
                unit > 0,
        ;
    }
}

/// A product with a tiny factor has nothing before the point.
proof fn lemma_small_product(p: Dyadic, f: Dyadic)
    requires
        0 < p.m < 0x20_0000_0000_0000,
        0 < f.m < 0x20_0000_0000_0000,
        p.e <= 12,
        f.e < -200,
    ensures
        p.times(f).floor() == 0,
{
    let x = p.times(f);
    let prod = p.m * f.m;
    let k = p.e + f.e;
    vstd::arithmetic::power2::lemma2_to64();
    vstd::arithmetic::power2::lemma2_to64_rest();
    assert(0 < prod < 0x20_0000_0000_0000 * 0x20_0000_0000_0000) by (nonlinear_arith)
        requires
            prod == p.m * f.m,
            0 < p.m < 0x20_0000_0000_0000,
            0 < f.m < 0x20_0000_0000_0000,
    ;
    lemma_rounded_ceiling(prod, 1, k, 53);
    assert(prod * pow2(52) >= 0x10_0000_0000_0000) by (nonlinear_arith)
        requires
            prod >= 1,
            pow2(52) == 0x10_0000_0000_0000,
    ;
    lemma_rounded_range(prod, 1, k, -52);
    assert(x.e < -64);
    lemma_pow2_mono(64, (-x.e) as nat);
    let d = pow2((-x.e) as nat);
    assert(x.m < d);
    assert(x.m / d == 0) by (nonlinear_arith)
        requires
            0 <= x.m < d,
    ;
}

/// The floor of a number is not above it.
proof fn lemma_floor_below(x: Dyadic)
    requires
        x.e >= -400,
    ensures
        x.floor() * pow2(400) <= scaled(x),
{
    if x.e >= 0 {
        lemma_pow2_adds(x.e as nat, 400);
        let u = pow2(400);
        assert(x.m * (pow2(x.e as nat) * u) == x.m * pow2(x.e as nat) * u) by (nonlinear_arith);
    } else {
        let d = pow2((-x.e) as nat);
        let u = pow2((x.e + 400) as nat);
        lemma_pow2_pos((-x.e) as nat);
        lemma_pow2_adds((x.e + 400) as nat, (-x.e) as nat);
        vstd::arithmetic::div_mod::lemma_fundamental_div_mod(x.m as int, d as int);
        let q = x.m / d;
        assert(q * d <= x.m) by (nonlinear_arith)
            requires
                x.m == d * q + x.m % d,
                x.m % d >= 0,
        ;
        assert(q * (u * d) <= x.m * u) by (nonlinear_arith)
            requires
                q * d <= x.m,
        ;
    }
}

/// The ceiling of a number is not below it, and the whole number before that is.
proof fn lemma_ceiling_above(x: Dyadic)
    requires
        x.e >= -400,
        x.m > 0,
    ensures
        scaled(x) <= x.ceiling() * pow2(400),
        (x.ceiling() - 1) * pow2(400) < scaled(x),
{
    lemma_pow2_pos(400);
    let c = x.ceiling();
    if x.e >= 0 {
        lemma_pow2_adds(x.e as nat, 400);
        let u = pow2(400);
        assert(x.m * (pow2(x.e as nat) * u) == x.m * pow2(x.e as nat) * u) by (nonlinear_arith);
        assert((c - 1) * u == c * u - u) by (nonlinear_arith);
    } else {
        let d = pow2((-x.e) as nat);
        let u = pow2((x.e + 400) as nat);
        lemma_pow2_pos((-x.e) as nat);
        lemma_pow2_pos((x.e + 400) as nat);
        lemma_pow2_adds((x.e + 400) as nat, (-x.e) as nat);
        vstd::arithmetic::div_mod::lemma_fundamental_div_mod(x.m + d - 1, d as int);
        vstd::arithmetic::div_mod::lemma_mod_bound(x.m + d - 1, d as int);
        let r = (x.m + d - 1) % (d as int);
        assert(x.m <= c * d && (c - 1) * d < x.m) by (nonlinear_arith)
            requires
                x.m + d - 1 == d * c + r,
                0 <= r < d,
        ;
        assert(x.m * u <= c * (u * d)) by (nonlinear_arith)
            requires
                x.m <= c * d,
        ;
        assert((c - 1) * (u * d) < x.m * u) by (nonlinear_arith)
            requires
                (c - 1) * d < x.m,
                u > 0,
        ;
    }
}

/// `n` times the double nearest to 1.15, rounded up: 23 twentieths of `n`, but for a relative
/// error of `2^-50`.
pub proof fn lemma_headroom(n: nat)
    requires
        0 < n <= u64::MAX,
    ensures
        ({
            let c = Dyadic::of_nat(n).times(
                Dyadic { m: 0x12_6666_6666_6666, e: -52 },
            ).ceiling();
            &&& 23 * n * 0x3_ffff_ffff_ffff <= 20 * c * 0x4_0000_0000_0000
            &&& 20 * (c - 1) * 0x4_0000_0000_0000 < 23 * n * 0x4_0000_0000_0001
        }),
{
    let f = Dyadic { m: 0x12_6666_6666_6666, e: -52 };
    let p = Dyadic::of_nat(n);
    let x = p.times(f);
    let c = x.ceiling();
    let unit = pow2(400);
    vstd::arithmetic::power2::lemma2_to64();
    vstd::arithmetic::power2::lemma2_to64_rest();
    lemma_pow2_pos(400);
    lemma_of_nat(n);
    let v = lemma_product(n, f);
    let r = scaled(x);
    let s = scaled(p);
    let nu = n * unit;
    assert(v * 0x10_0000_0000_0000 == s * 0x12_6666_6666_6666) by {
        assert(pow2((-f.e) as nat) == 0x10_0000_0000_0000);
    }
    assert(nu > 0) by (nonlinear_arith)
        requires
            nu == n * unit,
            n > 0,
            unit > 0,
    ;
    assert(nu * 0x1f_ffff_ffff_ffff <= s * 0x20_0000_0000_0000);
    lemma_ceiling_above(x);
    let cu = c * unit;
    assert(23 * nu * 0x3_ffff_ffff_ffff <= 20 * cu * 0x4_0000_0000_0000);
    assert(23 * n * 0x3_ffff_ffff_ffff <= 20 * c * 0x4_0000_0000_0000) by (nonlinear_arith)
        requires
            23 * (n * unit) * 0x3_ffff_ffff_ffff <= 20 * (c * unit) * 0x4_0000_0000_0000,
            unit > 0,
    ;
    let du = (c - 1) * unit;
    assert(20 * du * 0x4_0000_0000_0000 < 23 * nu * 0x4_0000_0000_0001);
    assert(20 * (c - 1) * 0x4_0000_0000_0000 < 23 * n * 0x4_0000_0000_0001) by (nonlinear_arith)
        requires
            20 * ((c - 1) * unit) * 0x4_0000_0000_0000 < 23 * (n * unit) * 0x4_0000_0000_0001,
            unit > 0,
    ;
}

/// Up to `2^40`, `n` times the double nearest to 1.15, rounded up, is 23 twentieths of `n`, rounded
/// up.
pub proof fn lemma_headroom_exact(n: nat)
    requires
        0 < n <= 0x100_0000_0000,
    ensures
        Dyadic::of_nat(n).times(Dyadic { m: 0x12_6666_6666_6666, e: -52 }).ceiling() == (23 * n + 19)
            / 20,
{
    let f = Dyadic { m: 0x12_6666_6666_6666, e: -52 };
    let p = Dyadic::of_nat(n);
    let x = p.times(f);
    let c = x.ceiling();
    let unit = pow2(400);
    lemma_headroom(n);
    if (23 * n) % 20 == 0 {
        // The double is below 1.15, so the product is below a whole number that needs no rounding.
        let top = (23 * n / 20) as nat;
        vstd::arithmetic::power2::lemma2_to64();
        vstd::arithmetic::power2::lemma2_to64_rest();
        lemma_pow2_pos(400);
        lemma_of_nat(n);
        lemma_of_nat(top);
        let v = lemma_product(n, f);
        let s = scaled(p);
        assert(pow2((-f.e) as nat) == 0x10_0000_0000_0000);
        assert(v * 0x10_0000_0000_0000 == s * 0x12_6666_6666_6666);
        assert(v <= top * unit) by (nonlinear_arith)
            requires
                v * 0x10_0000_0000_0000 == n * unit * 0x12_6666_6666_6666,
                20 * top == 23 * n,
                unit > 0,
        ;
        assert(p.m * f.m > 0) by (nonlinear_arith)
            requires
                p.m > 0,
                f.m > 0,
        ;
        lemma_rounded_monotone(p.m * f.m, p.e + f.e, top, 0, 1);
        lemma_ceiling_above(x);
        assert(c <= top) by (nonlinear_arith)
            requires
                (c - 1) * unit < top * unit,
                unit > 0,
        ;
    }
}

/// Nothing, times a factor, is nothing.
pub proof fn lemma_nothing_of(f: Dyadic)
    ensures
        Dyadic::of_nat(0).times(f).ceiling() == 0,
{
    let none = Dyadic { m: 0, e: 0 };
    assert(Dyadic::of_nat(0) == none);
    assert(0 * f.m == 0);
    assert(none.times(f) == none);
    assert(0 * pow2(0) == 0);
}

proof fn lemma_floor_next(x: Dyadic)
    requires
        x.e >= -400,
    ensures
        scaled(x) < (x.floor() + 1) * pow2(400),
{
    lemma_pow2_pos(400);
    let q = x.floor();
    if x.e >= 0 {
        lemma_pow2_adds(x.e as nat, 400);
        let u = pow2(400);
        assert(x.m * (pow2(x.e as nat) * u) == x.m * pow2(x.e as nat) * u) by (nonlinear_arith);
        assert((q + 1) * u == q * u + u) by (nonlinear_arith);
    } else {
        let d = pow2((-x.e) as nat);
        let u = pow2((x.e + 400) as nat);
        lemma_pow2_pos((-x.e) as nat);
        lemma_pow2_pos((x.e + 400) as nat);
        lemma_pow2_adds((x.e + 400) as nat, (-x.e) as nat);
        vstd::arithmetic::div_mod::lemma_fundamental_div_mod(x.m as int, d as int);
        vstd::arithmetic::div_mod::lemma_mod_bound(x.m as int, d as int);
        let r = x.m as int % d as int;
        assert(x.m < (q + 1) * d) by (nonlinear_arith)
            requires
                x.m == d * q + r,
                r < d,
        ;
        assert(x.m * u < (q + 1) * (u * d)) by (nonlinear_arith)
            requires
                x.m < (q + 1) * d,
                u > 0,
        ;
    }
}

/// What a factor leaves of a whole number: the exact product, to within one part in `2^53`, with
/// what follows the point dropped.
pub proof fn lemma_part(n: nat, f: Dyadic)
    requires
        0 < n < 0x20_0000_0000_0000,
        0 < f.m < 0x20_0000_0000_0000,
        -200 <= f.e <= 0,
    ensures
        ({
            let q = Dyadic::of_nat(n).times(f).floor();
            let down = pow2((-f.e) as nat);
            &&& q * down * 0x20_0000_0000_0000 <= n * f.m * 0x20_0000_0000_0001
            &&& n * f.m * 0x1f_ffff_ffff_ffff < (q + 1) * down * 0x20_0000_0000_0000
        }),
{
    let p = Dyadic::of_nat(n);
    let x = p.times(f);
    let q = x.floor();
    let down = pow2((-f.e) as nat);
    let unit = pow2(400);
    let r = scaled(x);
    lemma_of_nat(n);
    let v = lemma_product(n, f);
    lemma_pow2_pos(400);
    lemma_pow2_pos((-f.e) as nat);
    lemma_floor_below(x);
    lemma_floor_next(x);
    let w = n * f.m;
    assert(v * down == w * unit) by (nonlinear_arith)
        requires
            v * down == n * unit * f.m,
            w == n * f.m,
    ;
    assert(q * down * 0x20_0000_0000_0000 <= w * 0x20_0000_0000_0001) by {
        assert(q * unit * 0x20_0000_0000_0000 <= v * 0x20_0000_0000_0001);
        assert(q * unit * 0x20_0000_0000_0000 * down <= v * 0x20_0000_0000_0001 * down)
            by (nonlinear_arith)
            requires
                q * unit * 0x20_0000_0000_0000 <= v * 0x20_0000_0000_0001,
        ;
        assert(v * 0x20_0000_0000_0001 * down == w * unit * 0x20_0000_0000_0001)
            by (nonlinear_arith)
            requires
                v * down == w * unit,
        ;
        assert(q * unit * 0x20_0000_0000_0000 * down == q * down * 0x20_0000_0000_0000 * unit)
            by (nonlinear_arith);
        assert(w * unit * 0x20_0000_0000_0001 == w * 0x20_0000_0000_0001 * unit)
            by (nonlinear_arith);
        assert(q * down * 0x20_0000_0000_0000 <= w * 0x20_0000_0000_0001) by (nonlinear_arith)
            requires
                q * down * 0x20_0000_0000_0000 * unit <= w * 0x20_0000_0000_0001 * unit,
                unit > 0,
        ;
    }
    assert(w * 0x1f_ffff_ffff_ffff < (q + 1) * down * 0x20_0000_0000_0000) by {
        let top = (q + 1) * unit;
        assert(v * 0x1f_ffff_ffff_ffff < top * 0x20_0000_0000_0000);
        assert(v * 0x1f_ffff_ffff_ffff * down < top * 0x20_0000_0000_0000 * down)
            by (nonlinear_arith)
            requires
                v * 0x1f_ffff_ffff_ffff < top * 0x20_0000_0000_0000,
                down > 0,
        ;
        assert(v * 0x1f_ffff_ffff_ffff * down == w * 0x1f_ffff_ffff_ffff * unit)
            by (nonlinear_arith)
            requires
                v * down == w * unit,
        ;
        assert(top * 0x20_0000_0000_0000 * down == (q + 1) * down * 0x20_0000_0000_0000 * unit)
            by (nonlinear_arith)
            requires
                top == (q + 1) * unit,
        ;
        assert(w * 0x1f_ffff_ffff_ffff < (q + 1) * down * 0x20_0000_0000_0000) by (nonlinear_arith)
            requires
                w * 0x1f_ffff_ffff_ffff * unit < (q + 1) * down * 0x20_0000_0000_0000 * unit,
                unit > 0,
        ;
    }
}

/// A number is written and read by its bits: the exponent in eleven of them, and 52 digits behind a
/// one that is left out. A whole number of 53 bits is kept exactly.
pub proof fn lemma_bits_tell_the_number(bits: u64, res: Option<Double>)
    requires
        call_ensures(Double::from_bits, (bits,), res),
    ensures
        bits >= 0x7ff0_0000_0000_0000 ==> res is None,
        0x10_0000_0000_0000 <= bits < 0x7ff0_0000_0000_0000 ==> res is Some && res->0.mant
            == 0x10_0000_0000_0000 + bits % 0x10_0000_0000_0000 && res->0.exp == bits as int
            / 0x10_0000_0000_0000 - 1075,
        bits < 0x10_0000_0000_0000 ==> res is Some && res->0.mant == bits && res->0.exp == -1074,
{
    assert(0x7ff0_0000_0000_0000 == 2047 * 0x10_0000_0000_0000);
    let e = bits as int / 0x10_0000_0000_0000;
    if bits < 0x8000_0000_0000_0000 {
        assert(e < 2048);
        assert(e % 2048 == e);
    }
    if res is Some {
        assert(res->0@ == Dyadic::of_bits(bits));
    }
}

/// A double is not above another exactly if its bits are not, as far as the numbers that have 53
/// bits go.
pub proof fn lemma_bits_keep_order(a: u64, b: u64)
    requires
        0 < a < 0x7ff0_0000_0000_0000,
        0x10_0000_0000_0000 <= b < 0x7ff0_0000_0000_0000,
    ensures
        Dyadic::of_bits(a).at_most(Dyadic::of_bits(b)) <==> a <= b,
{
    let ea = a as int / 0x10_0000_0000_0000;
    let eb = b as int / 0x10_0000_0000_0000;
    assert(ea < 2047 && eb < 2047 && eb >= 1);
    assert(ea % 2048 == ea && eb % 2048 == eb);
    let x = Dyadic::of_bits(a);
    let y = Dyadic::of_bits(b);
    vstd::arithmetic::power2::lemma2_to64();
    assert(a == ea * 0x10_0000_0000_0000 + a % 0x10_0000_0000_0000);
    assert(b == eb * 0x10_0000_0000_0000 + b % 0x10_0000_0000_0000);
    let low: nat = 0x10_0000_0000_0000;
    let high: nat = 0x20_0000_0000_0000;
    if x.e < y.e {
        lemma_pow2_mono(1, (y.e - x.e) as nat);
        let u = pow2((y.e - x.e) as nat);
        assert(y.m * u >= high) by (nonlinear_arith)
            requires
                y.m >= low,
                u >= 2,
                low == 0x10_0000_0000_0000,
                high == 0x20_0000_0000_0000,
        ;
    } else if x.e == y.e {
        assert(y.m * pow2(0) == y.m);
    } else {
        lemma_pow2_mono(1, (x.e - y.e) as nat);
        let u = pow2((x.e - y.e) as nat);
        assert(x.m >= low);
        assert(x.m * u >= high) by (nonlinear_arith)
            requires
                x.m >= low,
                u >= 2,
                low == 0x10_0000_0000_0000,
                high == 0x20_0000_0000_0000,
        ;
    }
}

/// The part of a whole that falls to some out of a total is exact to within one part in `2^50`,
/// before what follows the point is dropped.
pub proof fn lemma_share_is_close(
    whole: u32,
    part: u64,
    total: u64,
    res: Double,
    below: u64,
)
    requires
        0 < part <= total,
        call_ensures(share_of, (whole, part, total), res),
        call_ensures(Double::floor, (res,), below),
    ensures
        below * total * 0x4_0000_0000_0000 <= whole * part * 0x4_0000_0000_0001,
        whole * part * 0x3_ffff_ffff_ffff < (below + 1) * total * 0x4_0000_0000_0000,
{
    lemma_share_floor(whole as nat, part as nat, total as nat);
    let f = share(whole as nat, part as nat, total as nat).floor();
    assert(f <= u64::MAX) by {
        let w = whole as nat;
        let p = part as nat;
        let t = total as nat;
        assert(w * p * 0x4_0000_0000_0001 <= w * t * 0x4_0000_0000_0001) by (nonlinear_arith)
            requires
                p <= t,
        ;
        assert(f * 0x4_0000_0000_0000 <= w * 0x4_0000_0000_0001) by (nonlinear_arith)
            requires
                f * t * 0x4_0000_0000_0000 <= w * t * 0x4_0000_0000_0001,
                t > 0,
        ;
    }
}

/// Two numbers are compared at the smaller of their exponents.
pub proof fn lemma_comparisons(a: Double, b: Double, res: bool)
    requires
        call_ensures(Double::at_most, (a, b), res),
    ensures
        a.exp <= b.exp ==> (res <==> a.mant <= b.mant * pow2((b.exp - a.exp) as nat)),
        a.exp > b.exp ==> (res <==> a.mant * pow2((a.exp - b.exp) as nat) <= b.mant),
{
}

/// Doubling both sides changes nothing.
proof fn lemma_halved(w: nat, n: nat, u: nat)
    requires
        2 * (2 * w) <= 2 * (2 * n) + 2 * u,
        2 * (2 * n) <= 2 * (2 * w) + 2 * u,
    ensures
        2 * w <= 2 * n + u,
        2 * n <= 2 * w + u,
        2 * w == 2 * n + u ==> 2 * (2 * w) == 2 * (2 * n) + 2 * u,
        2 * n == 2 * w + u ==> 2 * (2 * n) == 2 * (2 * w) + 2 * u,
{
}

/// A rounded number has 53 bits and is the nearest such number: it is at most half of its last place
/// away, and where it is exactly half, its last bit is zero.
proof fn lemma_rounded_nearest(n: nat, d: nat, k: int)
    requires
        n > 0,
        d > 0,
    ensures
        ({
            let r = rounded(n, d, k);
            let exact = if r.e < k {
                n * pow2((k - r.e) as nat)
            } else {
                n
            };
            let place = if r.e < k {
                d
            } else {
                d * pow2((r.e - k) as nat)
            };
            &&& 0x10_0000_0000_0000 <= r.m < 0x20_0000_0000_0000
            &&& 2 * (r.m * place) <= 2 * exact + place
            &&& 2 * exact <= 2 * (r.m * place) + place
            &&& 2 * (r.m * place) == 2 * exact + place || 2 * exact == 2 * (r.m * place) + place
                ==> r.m % 2 == 0
        }),
    decreases
            (if n < 0x10_0000_0000_0000 * d {
                0x10_0000_0000_0000 * d - n + 1
            } else if n >= 0x20_0000_0000_0000 * d {
                n - 0x20_0000_0000_0000 * d + 1
            } else {
                0
            }),
{
    vstd::arithmetic::power2::lemma2_to64();
    let r = rounded(n, d, k);
    assert(n * pow2(0) == n && d * pow2(0) == d);
    if n < 0x10_0000_0000_0000 * d {
        lemma_rounded_nearest(2 * n, d, k - 1);
        if r.e >= k {
            let p = pow2((r.e - k) as nat);
            lemma_pow2_unfold((r.e - k + 1) as nat);
            assert(d * (2 * p) == 2 * (d * p)) by (nonlinear_arith);
            let u = d * p;
            assert(r.m * (2 * u) == 2 * (r.m * u)) by (nonlinear_arith);
            lemma_halved(r.m * u, n, u);
        } else if r.e < k - 1 {
            let p = pow2((k - 1 - r.e) as nat);
            lemma_pow2_unfold((k - r.e) as nat);
            assert(2 * n * p == n * (2 * p)) by (nonlinear_arith);
        } else {
            assert(n * pow2(1) == 2 * n) by (nonlinear_arith)
                requires
                    pow2(1) == 2,
            ;
        }
    } else if n >= 0x20_0000_0000_0000 * d {
        lemma_rounded_nearest(n, 2 * d, k + 1);
        if r.e > k {
            let p = pow2((r.e - k - 1) as nat);
            lemma_pow2_unfold((r.e - k) as nat);
            assert(2 * d * p == d * (2 * p)) by (nonlinear_arith);
        } else if r.e == k {
            assert(n * pow2(1) == 2 * n) by (nonlinear_arith)
                requires
                    pow2(1) == 2,
            ;
            assert(r.m * (2 * d) == 2 * (r.m * d)) by (nonlinear_arith);
            lemma_halved(r.m * d, n, d);
        } else {
            let p = pow2((k - r.e) as nat);
            lemma_pow2_unfold((k + 1 - r.e) as nat);
            assert(n * (2 * p) == 2 * (n * p)) by (nonlinear_arith);
            assert(r.m * (2 * d) == 2 * (r.m * d)) by (nonlinear_arith);
            lemma_halved(r.m * d, n * p, d);
        }
    } else {
        let q = nearest_even(n, d);
        lemma_nearest_even_error(n, d);
        lemma_quotient_bits(n, d);
        if q == 0x20_0000_0000_0000 {
            assert(pow2(1) == 2);
            assert(d * pow2(1) == 2 * d) by (nonlinear_arith)
                requires
                    pow2(1) == 2,
            ;
            assert(0x10_0000_0000_0000 * (2 * d) == q * d);
        } else {
            let s = n / d;
            let t = n as int % d as int;
            vstd::arithmetic::div_mod::lemma_fundamental_div_mod(n as int, d as int);
            vstd::arithmetic::div_mod::lemma_mod_bound(n as int, d as int);
            assert(s * d == d * s) by (nonlinear_arith);
            assert((s + 1) * d == s * d + d) by (nonlinear_arith);
        }
    }
}

/// A product is rounded to the nearest number of 53 bits: what was rounded off is at most half of
/// the last place, and where it is exactly half, the last bit is zero.
pub proof fn lemma_products_are_nearest(a: Double, b: Double, res: Double)
    requires
        call_ensures(Double::times, (a, b), res),
        a.mant > 0,
        b.mant > 0,
    ensures
        ({
            let shift = res.exp - a.exp - b.exp;
            let exact = (a.mant as nat) * (b.mant as nat) * pow2(
                if shift < 0 {
                    (-shift) as nat
                } else {
                    0
                },
            );
            let place = pow2(
                if shift < 0 {
                    0
                } else {
                    shift as nat
                },
            );
            &&& 0x10_0000_0000_0000 <= res.mant < 0x20_0000_0000_0000
            &&& 2 * (res.mant * place) <= 2 * exact + place
            &&& 2 * exact <= 2 * (res.mant * place) + place
            &&& 2 * (res.mant * place) == 2 * exact + place || 2 * exact == 2 * (res.mant * place)
                + place ==> res.mant % 2 == 0
        }),
{
    let n = (a.mant as nat) * (b.mant as nat);
    assert(n > 0) by (nonlinear_arith)
        requires
            n == (a.mant as nat) * (b.mant as nat),
            a.mant > 0,
            b.mant > 0,
    ;
    vstd::arithmetic::power2::lemma2_to64();
    lemma_rounded_nearest(n, 1, a.exp + b.exp);
    let r = rounded(n, 1, a.exp + b.exp);
    assert(res@ == r);
    assert(n * pow2(0) == n);
}

/// A quotient is rounded in the same way.
pub proof fn lemma_quotients_are_nearest(a: Double, b: Double, res: Double)
    requires
        call_ensures(Double::over, (a, b), res),
        a.mant > 0,
        b.mant > 0,
    ensures
        ({
            let shift = res.exp - (a.exp - b.exp);
            let exact = (a.mant as nat) * pow2(
                if shift < 0 {
                    (-shift) as nat
                } else {
                    0
                },
            );
            let place = (b.mant as nat) * pow2(
                if shift < 0 {
                    0
                } else {
                    shift as nat
                },
            );
            &&& 0x10_0000_0000_0000 <= res.mant < 0x20_0000_0000_0000
            &&& 2 * (res.mant * place) <= 2 * exact + place
            &&& 2 * exact <= 2 * (res.mant * place) + place
            &&& 2 * (res.mant * place) == 2 * exact + place || 2 * exact == 2 * (res.mant * place)
                + place ==> res.mant % 2 == 0
        }),
{
    let n = a.mant as nat;
    let d = b.mant as nat;
    vstd::arithmetic::power2::lemma2_to64();
    lemma_rounded_nearest(n, d, a.exp - b.exp);
    assert(res@ == rounded(n, d, a.exp - b.exp));
    assert(n * pow2(0) == n);
    assert(d * pow2(0) == d);
}

/// A whole number is rounded in the same way.
pub proof fn lemma_whole_numbers_are_nearest(n: u64, res: Double)
    requires
        call_ensures(Double::from_u64, (n,), res),
    ensures
        n == 0 ==> res.mant == 0,
        n > 0 ==> ({
            let exact = (n as nat) * pow2(
                if res.exp < 0 {
                    (-res.exp) as nat
                } else {
                    0
                },
            );
            let place = pow2(
                if res.exp < 0 {
                    0
                } else {
                    res.exp as nat
                },
            );
            &&& 0x10_0000_0000_0000 <= res.mant < 0x20_0000_0000_0000
            &&& 2 * (res.mant * place) <= 2 * exact + place
            &&& 2 * exact <= 2 * (res.mant * place) + place
            &&& 2 * (res.mant * place) == 2 * exact + place || 2 * exact == 2 * (res.mant * place)
                + place ==> res.mant % 2 == 0
        }),
{
    vstd::arithmetic::power2::lemma2_to64();
    if n > 0 {
        lemma_rounded_nearest(n as nat, 1, 0);
        assert(n * pow2(0) == n);
    }
}

/// What stands before the point of a number, and whether anything follows it.
pub proof fn lemma_points(x: Double, below: u64, above: u64, after: u128)
    requires
        call_ensures(Double::floor, (x,), below),
        call_ensures(Double::ceiling, (x,), above),
        call_ensures(Double::fraction, (x,), after),
        x.mant < 0x20_0000_0000_0000,
        -120 <= x.exp <= 0,
    ensures
        ({
            let unit = pow2((-x.exp) as nat);
            &&& below * unit <= x.mant < (below + 1) * unit
            &&& above * unit >= x.mant
            &&& above * unit < x.mant + unit
            &&& after == (x.mant - below * unit) * pow2((120 + x.exp) as nat)
        }),
{
    let unit = pow2((-x.exp) as nat);
    let m = x.mant as nat;
    vstd::arithmetic::power2::lemma2_to64();
    lemma_pow2_pos((-x.exp) as nat);
    let q = x@.floor();
    let c = x@.ceiling();
    if x.exp < 0 {
        vstd::arithmetic::div_mod::lemma_fundamental_div_mod(m as int, unit as int);
        vstd::arithmetic::div_mod::lemma_mod_bound(m as int, unit as int);
        vstd::arithmetic::div_mod::lemma_fundamental_div_mod(m + unit - 1, unit as int);
        vstd::arithmetic::div_mod::lemma_mod_bound(m + unit - 1, unit as int);
        assert(unit * q == q * unit) by (nonlinear_arith);
        assert(unit * c == c * unit) by (nonlinear_arith);
        assert((q + 1) * unit == q * unit + unit) by (nonlinear_arith);
        lemma_ceiling_by_quotient(m as int, unit as int);
        assert(q <= m) by (nonlinear_arith)
            requires
                q * unit <= m,
                unit >= 1,
        ;
    } else {
        assert(m * pow2(0) == m);
        assert(m * 1 == m && (m + 1) * 1 == m + 1);
        assert(q == m && c == m);
        assert(0 * pow2(120) == 0);
    }
}

} // verus!
